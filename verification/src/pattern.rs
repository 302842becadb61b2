//! Episode-anchor and year detection inside a filename stem.
//!
//! Three anchor shapes are recognised, tried at each position from the left:
//! `S<digits>E<digits>`, `<digits>x<digits>`, and a textual marker
//! (`Cap`, `Capitulo`, `Episodio`, `Ep`) followed by an optional `.` or
//! whitespace and digits. The leftmost position at which any shape matches
//! fixes the boundary between the title head and the trailing metadata.

use vstd::prelude::*;

use crate::chars::{is_digit, lower};
use crate::unicode::is_space_char;
use crate::numbers::{all_digits_in, digits_val_or};

verus! {

/// The end of the maximal digit run starting at `i`.
pub open spec fn run_end(s: Seq<char>, i: int) -> int
    recommends
        0 <= i <= s.len(),
    decreases s.len() - i,
{
    if i < s.len() && is_digit(s[i]) {
        run_end(s, i + 1)
    } else {
        i
    }
}

/// A digit run ends at or after its start, within the string, on a non-digit.
pub proof fn lemma_run_end(s: Seq<char>, i: int)
    requires
        0 <= i <= s.len(),
    ensures
        i <= run_end(s, i) <= s.len(),
        all_digits_in(s, i, run_end(s, i)),
        run_end(s, i) < s.len() ==> !is_digit(s[run_end(s, i)]),
    decreases s.len() - i,
{
    if i < s.len() && is_digit(s[i]) {
        lemma_run_end(s, i + 1);
    }
}

pub fn run_end_exec(s: &Vec<char>, i: usize) -> (j: usize)
    requires
        i <= s@.len(),
    ensures
        j == run_end(s@, i as int),
{
    let mut j = i;
    while j < s.len() && crate::chars::digit_exec(s[j])
        invariant
            i <= j <= s@.len(),
            run_end(s@, i as int) == run_end(s@, j as int),
        decreases s@.len() - j,
    {
        j = j + 1;
    }
    j
}

/// `S<digits>E<digits>` (case-insensitive) starting at `i`.
pub open spec fn sxe_at(s: Seq<char>, i: int) -> bool {
    &&& 0 <= i < s.len()
    &&& (s[i] == 's' || s[i] == 'S')
    &&& run_end(s, i + 1) > i + 1
    &&& run_end(s, i + 1) < s.len()
    &&& (s[run_end(s, i + 1)] == 'e' || s[run_end(s, i + 1)] == 'E')
    &&& run_end(s, run_end(s, i + 1) + 1) > run_end(s, i + 1) + 1
}

/// `<digits>x<digits>` (case-insensitive) starting at `i`.
pub open spec fn nxn_at(s: Seq<char>, i: int) -> bool {
    &&& 0 <= i < s.len()
    &&& is_digit(s[i])
    &&& run_end(s, i) < s.len()
    &&& (s[run_end(s, i)] == 'x' || s[run_end(s, i)] == 'X')
    &&& run_end(s, run_end(s, i) + 1) > run_end(s, i) + 1
}

/// The keyword `kw` (given lowercase) matches case-insensitively at `i`.
pub open spec fn kw_at(s: Seq<char>, i: int, kw: Seq<char>) -> bool {
    &&& 0 <= i
    &&& i + kw.len() <= s.len()
    &&& forall|k: int| 0 <= k < kw.len() ==> lower(s[i + k]) == kw[k]
}

/// Where the digits of a textual marker start, after the keyword ends at `p`:
/// an optional `.` or whitespace, then at least one digit; `-1` otherwise.
pub open spec fn marker_digits_start(s: Seq<char>, p: int) -> int {
    if 0 <= p && p < s.len() && (s[p] == '.' || is_space_char(s[p])) && p + 1 < s.len() && is_digit(
        s[p + 1],
    ) {
        p + 1
    } else if 0 <= p && p < s.len() && is_digit(s[p]) {
        p
    } else {
        -1
    }
}

pub open spec fn kw_cap() -> Seq<char> {
    seq!['c', 'a', 'p']
}

pub open spec fn kw_capitulo() -> Seq<char> {
    seq!['c', 'a', 'p', 'i', 't', 'u', 'l', 'o']
}

pub open spec fn kw_episodio() -> Seq<char> {
    seq!['e', 'p', 'i', 's', 'o', 'd', 'i', 'o']
}

pub open spec fn kw_ep() -> Seq<char> {
    seq!['e', 'p']
}

pub open spec fn marker_kw_at(s: Seq<char>, i: int, kw: Seq<char>) -> bool {
    kw_at(s, i, kw) && marker_digits_start(s, i + kw.len()) >= 0
}

/// A textual episode marker starting at `i`.
pub open spec fn marker_at(s: Seq<char>, i: int) -> bool {
    ||| marker_kw_at(s, i, kw_cap())
    ||| marker_kw_at(s, i, kw_capitulo())
    ||| marker_kw_at(s, i, kw_episodio())
    ||| marker_kw_at(s, i, kw_ep())
}

/// The keyword length of the marker matching at `i`, trying `Cap`,
/// `Capitulo`, `Episodio`, `Ep` in that order.
pub open spec fn marker_kw_len(s: Seq<char>, i: int) -> int {
    if marker_kw_at(s, i, kw_cap()) {
        3
    } else if marker_kw_at(s, i, kw_capitulo()) {
        8
    } else if marker_kw_at(s, i, kw_episodio()) {
        8
    } else {
        2
    }
}

/// The combined digit string of a marker matching at `i`.
pub open spec fn marker_digits(s: Seq<char>, i: int) -> Seq<char>
    recommends
        marker_at(s, i),
{
    let d = marker_digits_start(s, i + marker_kw_len(s, i));
    s.subrange(d, run_end(s, d))
}

/// Any anchor shape starting at `i`.
pub open spec fn anchor_at(s: Seq<char>, i: int) -> bool {
    sxe_at(s, i) || nxn_at(s, i) || marker_at(s, i)
}

/// The leftmost anchor position at or after `i`, or the length of `s` if no
/// anchor occurs.
pub open spec fn anchor_from(s: Seq<char>, i: int) -> int
    recommends
        0 <= i <= s.len(),
    decreases s.len() - i,
{
    if i >= s.len() {
        s.len() as int
    } else if anchor_at(s, i) {
        i
    } else {
        anchor_from(s, i + 1)
    }
}

/// The boundary between the title head and the trailing metadata: the
/// leftmost anchor position, or the length of the stem when no anchor occurs.
pub open spec fn boundary(s: Seq<char>) -> int {
    anchor_from(s, 0)
}

pub proof fn lemma_anchor_from(s: Seq<char>, i: int)
    requires
        0 <= i <= s.len(),
    ensures
        i <= anchor_from(s, i) <= s.len(),
        anchor_from(s, i) < s.len() ==> anchor_at(s, anchor_from(s, i)),
        forall|k: int| i <= k < anchor_from(s, i) ==> !anchor_at(s, k),
    decreases s.len() - i,
{
    if i < s.len() && !anchor_at(s, i) {
        lemma_anchor_from(s, i + 1);
    }
}

/// The season number at an anchor, with the documented defaults.
pub open spec fn anchor_season(s: Seq<char>, i: int) -> nat
    recommends
        anchor_at(s, i),
{
    if sxe_at(s, i) {
        digits_val_or(s.subrange(i + 1, run_end(s, i + 1)), 1)
    } else if nxn_at(s, i) {
        digits_val_or(s.subrange(i, run_end(s, i)), 1)
    } else {
        let ds = marker_digits(s, i);
        if ds.len() >= 3 {
            digits_val_or(ds.take(ds.len() - 2), 1)
        } else {
            1
        }
    }
}

/// The episode number at an anchor, with the documented defaults.
pub open spec fn anchor_episode(s: Seq<char>, i: int) -> nat
    recommends
        anchor_at(s, i),
{
    if sxe_at(s, i) {
        let e = run_end(s, i + 1);
        digits_val_or(s.subrange(e + 1, run_end(s, e + 1)), 0)
    } else if nxn_at(s, i) {
        let e = run_end(s, i);
        digits_val_or(s.subrange(e + 1, run_end(s, e + 1)), 0)
    } else {
        let ds = marker_digits(s, i);
        if ds.len() >= 3 {
            digits_val_or(ds.skip(ds.len() - 2), 0)
        } else {
            digits_val_or(ds, 0)
        }
    }
}

/// A four-digit year in `[1900, 2099]` starting at `i`.
pub open spec fn year_at(s: Seq<char>, i: int) -> bool {
    &&& 0 <= i
    &&& i + 4 <= s.len()
    &&& ((s[i] == '1' && s[i + 1] == '9') || (s[i] == '2' && s[i + 1] == '0'))
    &&& is_digit(s[i + 2])
    &&& is_digit(s[i + 3])
}

/// The rightmost year position at or before `i`, or `-1` if none.
pub open spec fn year_before(s: Seq<char>, i: int) -> int
    decreases i + 1,
{
    if i < 0 {
        -1
    } else if year_at(s, i) {
        i
    } else {
        year_before(s, i - 1)
    }
}

/// The rightmost year position in `s`, or `-1` if none.
pub open spec fn year_pos(s: Seq<char>) -> int {
    year_before(s, s.len() - 4)
}

pub proof fn lemma_year_before(s: Seq<char>, i: int)
    ensures
        year_before(s, i) >= 0 ==> year_at(s, year_before(s, i)) && year_before(s, i) <= i,
        forall|k: int| year_before(s, i) < k <= i ==> !year_at(s, k),
    decreases i + 1,
{
    if i >= 0 && !year_at(s, i) {
        lemma_year_before(s, i - 1);
    }
}

pub fn kw_at_exec(s: &Vec<char>, i: usize, kw: &Vec<char>) -> (b: bool)
    requires
        i <= s@.len(),
    ensures
        b == kw_at(s@, i as int, kw@),
{
    if kw.len() > s.len() - i {
        return false;
    }
    let mut k: usize = 0;
    proof {
        assert(s.len() == s@.len());
    }
    while k < kw.len()
        invariant
            s@.len() <= usize::MAX,
            i + kw@.len() <= s@.len(),
            0 <= k <= kw@.len(),
            forall|m: int| 0 <= m < k ==> lower(s@[i + m]) == kw@[m],
        decreases kw@.len() - k,
    {
        if crate::chars::lower_exec(s[i + k]) != kw[k] {
            assert(!kw_at(s@, i as int, kw@));
            return false;
        }
        k = k + 1;
    }
    true
}

pub fn marker_digits_start_exec(s: &Vec<char>, p: usize) -> (r: Option<usize>)
    ensures
        marker_digits_start(s@, p as int) >= 0 ==> r == Some(
            marker_digits_start(s@, p as int) as usize,
        ),
        marker_digits_start(s@, p as int) < 0 ==> r.is_none(),
{
    if p < s.len() && (s[p] == '.' || crate::unicode::is_space_char_exec(s[p])) && p + 1 < s.len()
        && crate::chars::digit_exec(s[p + 1]) {
        Some(p + 1)
    } else if p < s.len() && crate::chars::digit_exec(s[p]) {
        Some(p)
    } else {
        None
    }
}

pub fn sxe_at_exec(s: &Vec<char>, i: usize) -> (b: bool)
    requires
        i < s@.len(),
    ensures
        b == sxe_at(s@, i as int),
{
    if !(s[i] == 's' || s[i] == 'S') {
        return false;
    }
    proof {
        assert(s.len() == s@.len());
        lemma_run_end(s@, i + 1);
    }
    let d1 = run_end_exec(s, i + 1);
    if d1 <= i + 1 || d1 >= s.len() {
        return false;
    }
    if !(s[d1] == 'e' || s[d1] == 'E') {
        return false;
    }
    proof {
        lemma_run_end(s@, d1 + 1);
    }
    let d2 = run_end_exec(s, d1 + 1);
    d2 > d1 + 1
}

pub fn nxn_at_exec(s: &Vec<char>, i: usize) -> (b: bool)
    requires
        i < s@.len(),
    ensures
        b == nxn_at(s@, i as int),
{
    if !crate::chars::digit_exec(s[i]) {
        return false;
    }
    proof {
        lemma_run_end(s@, i as int);
    }
    let e = run_end_exec(s, i);
    if e >= s.len() {
        return false;
    }
    if !(s[e] == 'x' || s[e] == 'X') {
        return false;
    }
    proof {
        lemma_run_end(s@, e + 1);
    }
    let e2 = run_end_exec(s, e + 1);
    e2 > e + 1
}

/// The marker keywords, held as character vectors for the scanner.
pub struct MarkerKws {
    pub cap: Vec<char>,
    pub capitulo: Vec<char>,
    pub episodio: Vec<char>,
    pub ep: Vec<char>,
}

impl MarkerKws {
    pub open spec fn wf(&self) -> bool {
        &&& self.cap@ == kw_cap()
        &&& self.capitulo@ == kw_capitulo()
        &&& self.episodio@ == kw_episodio()
        &&& self.ep@ == kw_ep()
    }

    pub fn new() -> (r: MarkerKws)
        ensures
            r.wf(),
    {
        let mut cap: Vec<char> = Vec::new();
        cap.push('c');
        cap.push('a');
        cap.push('p');
        let mut capitulo: Vec<char> = Vec::new();
        capitulo.push('c');
        capitulo.push('a');
        capitulo.push('p');
        capitulo.push('i');
        capitulo.push('t');
        capitulo.push('u');
        capitulo.push('l');
        capitulo.push('o');
        let mut episodio: Vec<char> = Vec::new();
        episodio.push('e');
        episodio.push('p');
        episodio.push('i');
        episodio.push('s');
        episodio.push('o');
        episodio.push('d');
        episodio.push('i');
        episodio.push('o');
        let mut ep: Vec<char> = Vec::new();
        ep.push('e');
        ep.push('p');
        let r = MarkerKws { cap, capitulo, episodio, ep };
        proof {
            assert(r.cap@ =~= kw_cap());
            assert(r.capitulo@ =~= kw_capitulo());
            assert(r.episodio@ =~= kw_episodio());
            assert(r.ep@ =~= kw_ep());
        }
        r
    }
}

pub fn marker_at_exec(kws: &MarkerKws, s: &Vec<char>, i: usize) -> (b: bool)
    requires
        kws.wf(),
        i <= s@.len(),
    ensures
        b == marker_at(s@, i as int),
{
    proof {
        assert(s.len() == s@.len());
    }
    let c1 = kw_at_exec(s, i, &kws.cap) && marker_digits_start_exec(s, i + 3).is_some();
    let c2 = kw_at_exec(s, i, &kws.capitulo) && marker_digits_start_exec(s, i + 8).is_some();
    let c3 = kw_at_exec(s, i, &kws.episodio) && marker_digits_start_exec(s, i + 8).is_some();
    let c4 = kw_at_exec(s, i, &kws.ep) && marker_digits_start_exec(s, i + 2).is_some();
    c1 || c2 || c3 || c4
}

pub fn anchor_at_exec(kws: &MarkerKws, s: &Vec<char>, i: usize) -> (b: bool)
    requires
        kws.wf(),
        i < s@.len(),
    ensures
        b == anchor_at(s@, i as int),
{
    sxe_at_exec(s, i) || nxn_at_exec(s, i) || marker_at_exec(kws, s, i)
}

/// Finds the leftmost anchor in `s`, returning the stem length if none.
pub fn find_boundary(kws: &MarkerKws, s: &Vec<char>) -> (b: usize)
    requires
        kws.wf(),
    ensures
        b == boundary(s@),
{
    let mut i: usize = 0;
    while i < s.len()
        invariant
            kws.wf(),
            0 <= i <= s@.len(),
            boundary(s@) == anchor_from(s@, i as int),
        decreases s@.len() - i,
    {
        if anchor_at_exec(kws, s, i) {
            return i;
        }
        i = i + 1;
    }
    i
}

/// The season and episode numbers at the anchor position `i`.
#[verifier::rlimit(60)]
pub fn anchor_nums_exec(kws: &MarkerKws, s: &Vec<char>, i: usize) -> (r: (u32, u32))
    requires
        kws.wf(),
        i < s@.len(),
        anchor_at(s@, i as int),
    ensures
        r.0 == anchor_season(s@, i as int),
        r.1 == anchor_episode(s@, i as int),
{
    proof {
        assert(s.len() == s@.len());
        lemma_run_end(s@, i as int);
        lemma_run_end(s@, i + 1);
    }
    if sxe_at_exec(s, i) {
        let d1 = run_end_exec(s, i + 1);
        proof {
            lemma_run_end(s@, d1 + 1);
        }
        let d2 = run_end_exec(s, d1 + 1);
        let se = crate::numbers::parse_digits_or(s, i + 1, d1, 1);
        let ep = crate::numbers::parse_digits_or(s, d1 + 1, d2, 0);
        (se, ep)
    } else if nxn_at_exec(s, i) {
        let e = run_end_exec(s, i);
        proof {
            lemma_run_end(s@, e + 1);
        }
        let e2 = run_end_exec(s, e + 1);
        let se = crate::numbers::parse_digits_or(s, i, e, 1);
        let ep = crate::numbers::parse_digits_or(s, e + 1, e2, 0);
        (se, ep)
    } else {
        let kl: usize = if kw_at_exec(s, i, &kws.cap) && marker_digits_start_exec(
            s,
            i + 3,
        ).is_some() {
            3
        } else if kw_at_exec(s, i, &kws.capitulo) && marker_digits_start_exec(s, i + 8).is_some() {
            8
        } else if kw_at_exec(s, i, &kws.episodio) && marker_digits_start_exec(s, i + 8).is_some() {
            8
        } else {
            2
        };
        assert(kl == marker_kw_len(s@, i as int));
        let d = match marker_digits_start_exec(s, i + kl) {
            Some(d) => d,
            None => {
                proof {
                    assert(false);
                }
                0
            },
        };
        proof {
            lemma_run_end(s@, d as int);
        }
        let e = run_end_exec(s, d);
        let ghost ds = marker_digits(s@, i as int);
        assert(ds == s@.subrange(d as int, e as int));
        if e - d >= 3 {
            proof {
                assert(s@.subrange(d as int, e - 2) =~= ds.take(ds.len() - 2));
                assert(s@.subrange(e - 2, e as int) =~= ds.skip(ds.len() - 2));
            }
            let se = crate::numbers::parse_digits_or(s, d, e - 2, 1);
            let ep = crate::numbers::parse_digits_or(s, e - 2, e, 0);
            (se, ep)
        } else {
            let ep = crate::numbers::parse_digits_or(s, d, e, 0);
            (1, ep)
        }
    }
}

pub fn year_at_exec(s: &Vec<char>, i: usize) -> (b: bool)
    requires
        i <= s@.len(),
    ensures
        b == year_at(s@, i as int),
{
    if s.len() - i < 4 {
        return false;
    }
    ((s[i] == '1' && s[i + 1] == '9') || (s[i] == '2' && s[i + 1] == '0'))
        && crate::chars::digit_exec(s[i + 2]) && crate::chars::digit_exec(s[i + 3])
}

/// Finds the rightmost year in `s`.
pub fn year_pos_exec(s: &Vec<char>) -> (r: Option<usize>)
    ensures
        year_pos(s@) >= 0 ==> r == Some(year_pos(s@) as usize),
        year_pos(s@) < 0 ==> r.is_none(),
{
    if s.len() < 4 {
        return None;
    }
    let mut i: usize = s.len() - 4;
    loop
        invariant
            0 <= i <= s@.len() - 4,
            year_pos(s@) == year_before(s@, i as int),
        decreases i,
    {
        if year_at_exec(s, i) {
            return Some(i);
        }
        if i == 0 {
            proof {
                assert(year_before(s@, -1) == -1);
            }
            return None;
        }
        i = i - 1;
    }
}

} // verus!
