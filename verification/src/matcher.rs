//! Parse One Pace release filenames and arc folder names.
//!
//! Episode files:      `[One Pace][<range>] <Arc> <ep> [<res>][<CRC>].<ext>`
//! Extended cuts:      `[One Pace][<range>] <Arc> <ep> Extended [<res>][<CRC>].<ext>`
//! Single-file arcs:   `[One Pace][<range>] <Arc> [<res>][<CRC>].<ext>`
//! Arc folders:        `[One Pace][<range>] <Arc> [<res>]`
//!
//! Written as the patterns
//!
//! ```text
//! ^\[One Pace\]\[(\d+[\d,\s-]*)\]\s+(.+?)\s+(\d+)(\s+Extended)?\s+\[([^\]]+)\](?:\[([0-9A-Fa-f]{8})\])?\.([A-Za-z0-9]+)$
//! ^\[One Pace\]\[(\d+[\d,\s-]*)\]\s+(.+?)\s+\[([^\]]+)\](?:\[([0-9A-Fa-f]{8})\])?\.([A-Za-z0-9]+)$
//! ^\[One Pace\]\[\d+[\d,\s-]*\]\s+.+?\s+\[[^\]]+\]$
//! ```
//!
//! with leftmost-first (backtracking priority) semantics: `\d` is Unicode
//! `Nd`, `\s` is Unicode `White_Space`, `.` is any character but `\n`.
//! The specification below follows that search order exactly: the
//! greedy `\s+` after the range is tried longest first, and for each of
//! its lengths the lazy arc is tried shortest first.

use vstd::prelude::*;

use crate::paths;
use crate::text::{self, chars_of, string_of, regex_is_digit, is_white_space_char, is_ascii_alnum_char, is_hex_digit_char, trim_range, slice_chars, to_ascii_uppercase, parse_u32_range, push_all, char_is_alphanumeric, char_to_lowercase};

verus! {

/// A recognised release file.
pub struct ParsedFile {
    pub arc: String,
    pub episode: u32,
    pub chapter_range: String,
    pub resolution: Option<String>,
    pub crc32: Option<String>,
    pub extension: String,
    pub extended: bool,
}

pub struct ParsedFileView {
    pub arc: Seq<char>,
    pub episode: u32,
    pub chapter_range: Seq<char>,
    pub resolution: Option<Seq<char>>,
    pub crc32: Option<Seq<char>>,
    pub extension: Seq<char>,
    pub extended: bool,
}

pub open spec fn opt_view(o: Option<String>) -> Option<Seq<char>> {
    match o {
        Some(s) => Some(s@),
        None => None,
    }
}

impl View for ParsedFile {
    type V = ParsedFileView;

    open spec fn view(&self) -> ParsedFileView {
        ParsedFileView {
            arc: self.arc@,
            episode: self.episode,
            chapter_range: self.chapter_range@,
            resolution: opt_view(self.resolution),
            crc32: opt_view(self.crc32),
            extension: self.extension@,
            extended: self.extended,
        }
    }
}

pub fn clone_opt_string(o: &Option<String>) -> (r: Option<String>)
    ensures
        opt_view(r) == opt_view(*o),
{
    match o {
        Some(s) => Some(s.clone()),
        None => None,
    }
}

impl ParsedFile {
    pub fn clone_parsed(&self) -> (r: ParsedFile)
        ensures
            r@ == self@,
    {
        ParsedFile {
            arc: self.arc.clone(),
            episode: self.episode,
            chapter_range: self.chapter_range.clone(),
            resolution: clone_opt_string(&self.resolution),
            crc32: clone_opt_string(&self.crc32),
            extension: self.extension.clone(),
            extended: self.extended,
        }
    }
}

// ---------- grammar ----------

/// Which of the three patterns is being matched.
#[derive(PartialEq, Eq, Structural, Clone, Copy)]
pub enum Grammar {
    EpisodeFile,
    SingleFile,
    ArcFolder,
}

/// Positions captured by the part of a pattern that follows the arc name.
#[derive(PartialEq, Eq, Structural, Clone, Copy)]
pub struct Tail {
    pub ep_lo: usize,
    pub ep_hi: usize,
    pub extended: bool,
    pub res_lo: usize,
    pub res_hi: usize,
    pub crc: Option<usize>,
    pub ext: usize,
}

/// `[One Pace][`
pub open spec fn head_literal() -> Seq<char> {
    seq!['[', 'O', 'n', 'e', ' ', 'P', 'a', 'c', 'e', ']', '[']
}

/// `Extended`
pub open spec fn extended_word() -> Seq<char> {
    seq!['E', 'x', 't', 'e', 'n', 'd', 'e', 'd']
}

/// Length of the run of white space starting at `i`.
pub open spec fn ws_run(s: Seq<char>, i: int) -> nat
    decreases s.len() - i,
{
    if 0 <= i < s.len() && text::is_white_space(s[i]) {
        1 + ws_run(s, i + 1)
    } else {
        0
    }
}

/// Length of the run of `\d` characters starting at `i`.
pub open spec fn dg_run(s: Seq<char>, i: int) -> nat
    decreases s.len() - i,
{
    if 0 <= i < s.len() && text::regex_digit(s[i]) {
        1 + dg_run(s, i + 1)
    } else {
        0
    }
}

/// Length of the run of characters other than `]` starting at `i`.
pub open spec fn nb_run(s: Seq<char>, i: int) -> nat
    decreases s.len() - i,
{
    if 0 <= i < s.len() && s[i] != ']' {
        1 + nb_run(s, i + 1)
    } else {
        0
    }
}

pub open spec fn range_class(c: char) -> bool {
    text::regex_digit(c) || c == ',' || text::is_white_space(c) || c == '-'
}

/// Length of the run of `[\d,\s-]` characters starting at `i`.
pub open spec fn range_run(s: Seq<char>, i: int) -> nat
    decreases s.len() - i,
{
    if 0 <= i < s.len() && range_class(s[i]) {
        1 + range_run(s, i + 1)
    } else {
        0
    }
}

/// Index of the `]` that closes the chapter range, if the file starts
/// with `[One Pace][` and a well-formed range.
pub open spec fn range_close(s: Seq<char>) -> Option<int> {
    let r = 11 + range_run(s, 11) as int;
    if s.len() > 11 && s.subrange(0, 11) == head_literal() && text::regex_digit(s[11]) && r < s.len()
        && s[r] == ']' {
        Some(r)
    } else {
        None
    }
}

/// `\.[A-Za-z0-9]+$` at `t`.
pub open spec fn ext_ok(s: Seq<char>, t: int) -> bool {
    &&& 0 <= t
    &&& t + 1 < s.len()
    &&& s[t] == '.'
    &&& forall|k: int| t + 1 <= k < s.len() ==> text::is_ascii_alnum(#[trigger] s[k])
}

/// `\[[0-9A-Fa-f]{8}\]\.[A-Za-z0-9]+$` at `m`.
pub open spec fn crc_ok(s: Seq<char>, m: int) -> bool {
    &&& 0 <= m
    &&& m + 9 < s.len()
    &&& s[m] == '['
    &&& forall|k: int| m + 1 <= k < m + 9 ==> text::is_hex_digit(#[trigger] s[k])
    &&& s[m + 9] == ']'
    &&& ext_ok(s, m + 10)
}

/// `\s+\[([^\]]+)\](?:\[([0-9A-Fa-f]{8})\])?\.([A-Za-z0-9]+)$` at `j`:
/// resolution bounds, CRC start and extension start.
pub open spec fn rest_spec(s: Seq<char>, j: int) -> Option<(int, int, Option<int>, int)> {
    let w = ws_run(s, j);
    let k = j + w;
    if w == 0 || k >= s.len() || s[k] != '[' {
        None
    } else {
        let rl = nb_run(s, k + 1);
        let m = k + 1 + rl;
        if rl == 0 || m >= s.len() {
            None
        } else if crc_ok(s, m + 1) {
            Some((k + 1, m, Some(m + 2), m + 12))
        } else if ext_ok(s, m + 1) {
            Some((k + 1, m, None, m + 2))
        } else {
            None
        }
    }
}

/// `\s+\[[^\]]+\]$` at `i`.
pub open spec fn folder_tail(s: Seq<char>, i: int) -> bool {
    let w = ws_run(s, i);
    let k = i + w;
    &&& w > 0
    &&& k < s.len()
    &&& s[k] == '['
    &&& nb_run(s, k + 1) > 0
    &&& k + 1 + nb_run(s, k + 1) == s.len() - 1
}

pub open spec fn ext_word_at(s: Seq<char>, i: int) -> bool {
    0 <= i && i + 8 <= s.len() && s.subrange(i, i + 8) == extended_word()
}

pub open spec fn rest_tail(r: (int, int, Option<int>, int), ep_lo: int, ep_hi: int, extended: bool) -> Tail {
    Tail {
        ep_lo: ep_lo as usize,
        ep_hi: ep_hi as usize,
        extended,
        res_lo: r.0 as usize,
        res_hi: r.1 as usize,
        crc: match r.2 {
            Some(c) => Some(c as usize),
            None => None,
        },
        ext: r.3 as usize,
    }
}

/// The part of the pattern after the lazy arc capture, matched at `i`.
pub open spec fn tail_spec(g: Grammar, s: Seq<char>, i: int) -> Option<Tail> {
    match g {
        Grammar::SingleFile => match rest_spec(s, i) {
            Some(r) => Some(rest_tail(r, 0, 0, false)),
            None => None,
        },
        Grammar::ArcFolder => if folder_tail(s, i) {
            Some(Tail { ep_lo: 0, ep_hi: 0, extended: false, res_lo: 0, res_hi: 0, crc: None, ext: 0 })
        } else {
            None
        },
        Grammar::EpisodeFile => {
            let w = ws_run(s, i);
            let d0 = i + w;
            let dl = dg_run(s, d0);
            let d1 = d0 + dl;
            let x = ws_run(s, d1);
            if w == 0 || dl == 0 {
                None
            } else if x > 0 && ext_word_at(s, d1 + x) && rest_spec(s, d1 + x + 8) is Some {
                Some(rest_tail(rest_spec(s, d1 + x + 8)->0, d0, d1, true))
            } else {
                match rest_spec(s, d1) {
                    Some(r) => Some(rest_tail(r, d0, d1, false)),
                    None => None,
                }
            }
        },
    }
}

/// Lazy `.+?`: the first arc end `e` (arc `s[a..e]`, tried from `e` up)
/// whose tail matches; the arc may not cross a newline.
pub open spec fn arc_search(g: Grammar, s: Seq<char>, e: int) -> Option<(int, Tail)>
    decreases s.len() + 1 - e,
{
    if e < 1 || e > s.len() || s[e - 1] == '\n' {
        None
    } else {
        match tail_spec(g, s, e) {
            Some(t) => Some((e, t)),
            None => arc_search(g, s, e + 1),
        }
    }
}

/// Greedy `\s+` before the arc: lengths `s1, s1 - 1, ..., 1` in turn.
pub open spec fn head_search(g: Grammar, s: Seq<char>, p: int, s1: int) -> Option<(int, int, Tail)>
    decreases s1,
{
    if s1 < 1 {
        None
    } else {
        match arc_search(g, s, p + s1 + 1) {
            Some((e, t)) => Some((p + s1, e, t)),
            None => head_search(g, s, p, s1 - 1),
        }
    }
}

/// The leftmost-first match of pattern `g` against the whole of `s`:
/// range close, arc start, arc end and the tail captures.
pub open spec fn grammar_match(g: Grammar, s: Seq<char>) -> Option<(int, int, int, Tail)> {
    match range_close(s) {
        Some(r) => match head_search(g, s, r + 1, ws_run(s, r + 1) as int) {
            Some((a, e, t)) => Some((r, a, e, t)),
            None => None,
        },
        None => None,
    }
}

/// The parsed fields of a match.
pub open spec fn match_view(s: Seq<char>, m: (int, int, int, Tail), episode: u32) -> ParsedFileView {
    let (r, a, e, t) = m;
    ParsedFileView {
        arc: text::trim_spec(s.subrange(a, e)),
        episode,
        chapter_range: s.subrange(11, r),
        resolution: Some(s.subrange(t.res_lo as int, t.res_hi as int)),
        crc32: match t.crc {
            Some(c) => Some(text::seq_ascii_upper(s.subrange(c as int, c + 8))),
            None => None,
        },
        extension: s.subrange(t.ext as int, s.len() as int),
        extended: t.extended,
    }
}

/// What `ParsedFile::from_filename` returns: the episode pattern first
/// (whose episode number must parse as a `u32`, else nothing is
/// recognised), then the single-file pattern as episode 1.
pub open spec fn parse_filename_spec(s: Seq<char>) -> Option<ParsedFileView> {
    match grammar_match(Grammar::EpisodeFile, s) {
        Some(m) => match text::parse_u32_spec(s.subrange(m.3.ep_lo as int, m.3.ep_hi as int)) {
            Some(ep) => Some(match_view(s, m, ep)),
            None => None,
        },
        None => match grammar_match(Grammar::SingleFile, s) {
            Some(m) => Some(match_view(s, m, 1)),
            None => None,
        },
    }
}

// ---------- exec ----------

fn ws_run_exec(s: &Vec<char>, i: usize) -> (r: usize)
    requires
        i <= s@.len(),
    ensures
        r == ws_run(s@, i as int),
        i + r <= s@.len(),
{
    let mut j = i;
    while j < s.len() && is_white_space_char(s[j])
        invariant
            i <= j <= s@.len(),
            ws_run(s@, i as int) == (j - i) + ws_run(s@, j as int),
        decreases s@.len() - j,
    {
        j = j + 1;
    }
    j - i
}

fn dg_run_exec(s: &Vec<char>, i: usize) -> (r: usize)
    requires
        i <= s@.len(),
    ensures
        r == dg_run(s@, i as int),
        i + r <= s@.len(),
{
    let mut j = i;
    while j < s.len() && regex_is_digit(s[j])
        invariant
            i <= j <= s@.len(),
            dg_run(s@, i as int) == (j - i) + dg_run(s@, j as int),
        decreases s@.len() - j,
    {
        j = j + 1;
    }
    j - i
}

fn nb_run_exec(s: &Vec<char>, i: usize) -> (r: usize)
    requires
        i <= s@.len(),
    ensures
        r == nb_run(s@, i as int),
        i + r <= s@.len(),
{
    let mut j = i;
    while j < s.len() && s[j] != ']'
        invariant
            i <= j <= s@.len(),
            nb_run(s@, i as int) == (j - i) + nb_run(s@, j as int),
        decreases s@.len() - j,
    {
        j = j + 1;
    }
    j - i
}

fn range_run_exec(s: &Vec<char>, i: usize) -> (r: usize)
    requires
        i <= s@.len(),
    ensures
        r == range_run(s@, i as int),
        i + r <= s@.len(),
{
    let mut j = i;
    while j < s.len() && (regex_is_digit(s[j]) || s[j] == ',' || is_white_space_char(s[j]) || s[j]
        == '-')
        invariant
            i <= j <= s@.len(),
            range_run(s@, i as int) == (j - i) + range_run(s@, j as int),
        decreases s@.len() - j,
    {
        j = j + 1;
    }
    j - i
}

fn range_close_exec(s: &Vec<char>) -> (r: Option<usize>)
    ensures
        r matches Some(x) ==> range_close(s@) == Some(x as int),
        r is None ==> range_close(s@) is None,
{
    let n = s.len();
    if n <= 11 {
        return None;
    }
    let ok = s[0] == '[' && s[1] == 'O' && s[2] == 'n' && s[3] == 'e' && s[4] == ' ' && s[5] == 'P'
        && s[6] == 'a' && s[7] == 'c' && s[8] == 'e' && s[9] == ']' && s[10] == '[';
    if !ok {
        assert(s@.subrange(0, 11) != head_literal()) by {
            if s@.subrange(0, 11) == head_literal() {
                assert(s@.subrange(0, 11)[0] == s@[0]);
                assert(s@.subrange(0, 11)[1] == s@[1]);
                assert(s@.subrange(0, 11)[2] == s@[2]);
                assert(s@.subrange(0, 11)[3] == s@[3]);
                assert(s@.subrange(0, 11)[4] == s@[4]);
                assert(s@.subrange(0, 11)[5] == s@[5]);
                assert(s@.subrange(0, 11)[6] == s@[6]);
                assert(s@.subrange(0, 11)[7] == s@[7]);
                assert(s@.subrange(0, 11)[8] == s@[8]);
                assert(s@.subrange(0, 11)[9] == s@[9]);
                assert(s@.subrange(0, 11)[10] == s@[10]);
            }
        }
        return None;
    }
    assert(s@.subrange(0, 11) == head_literal());
    if !regex_is_digit(s[11]) {
        return None;
    }
    let rl = range_run_exec(s, 11);
    let r = 11 + rl;
    if r < n && s[r] == ']' {
        Some(r)
    } else {
        None
    }
}

fn ext_ok_exec(s: &Vec<char>, t: usize) -> (r: bool)
    ensures
        r == ext_ok(s@, t as int),
{
    let n = s.len();
    if t >= n || n - t < 2 || s[t] != '.' {
        return false;
    }
    let mut k = t + 1;
    while k < n
        invariant
            n == s@.len(),
            t + 1 <= k <= n,
            forall|q: int| t + 1 <= q < k ==> text::is_ascii_alnum(#[trigger] s@[q]),
        decreases n - k,
    {
        if !is_ascii_alnum_char(s[k]) {
            return false;
        }
        k = k + 1;
    }
    true
}

fn crc_ok_exec(s: &Vec<char>, m: usize) -> (r: bool)
    ensures
        r == crc_ok(s@, m as int),
{
    let n = s.len();
    if m >= n || n - m < 10 || s[m] != '[' || s[m + 9] != ']' {
        return false;
    }
    let mut k = m + 1;
    while k < m + 9
        invariant
            n == s@.len(),
            m + 9 < n,
            m + 1 <= k <= m + 9,
            forall|q: int| m + 1 <= q < k ==> text::is_hex_digit(#[trigger] s@[q]),
        decreases m + 9 - k,
    {
        if !is_hex_digit_char(s[k]) {
            return false;
        }
        k = k + 1;
    }
    ext_ok_exec(s, m + 10)
}

fn rest_exec(s: &Vec<char>, j: usize) -> (r: Option<(usize, usize, Option<usize>, usize)>)
    requires
        j <= s@.len(),
    ensures
        r is None <==> rest_spec(s@, j as int) is None,
        r matches Some(x) ==> rest_spec(s@, j as int) == Some(
            (
                x.0 as int,
                x.1 as int,
                match x.2 {
                    Some(c) => Some(c as int),
                    None => None,
                },
                x.3 as int,
            ),
        ),
        r matches Some(x) ==> x.0 <= x.1 < s@.len() && x.3 <= s@.len() && (x.2 matches Some(c)
            ==> c + 8 <= s@.len()),
{
    let n = s.len();
    let w = ws_run_exec(s, j);
    let k = j + w;
    if w == 0 || k >= n || s[k] != '[' {
        return None;
    }
    let rl = nb_run_exec(s, k + 1);
    let m = k + 1 + rl;
    if rl == 0 || m >= n {
        return None;
    }
    if crc_ok_exec(s, m + 1) {
        Some((k + 1, m, Some(m + 2), m + 12))
    } else if ext_ok_exec(s, m + 1) {
        Some((k + 1, m, None, m + 2))
    } else {
        None
    }
}

fn folder_tail_exec(s: &Vec<char>, i: usize) -> (r: bool)
    requires
        i <= s@.len(),
    ensures
        r == folder_tail(s@, i as int),
{
    let n = s.len();
    let w = ws_run_exec(s, i);
    let k = i + w;
    if w == 0 || k >= n || s[k] != '[' {
        return false;
    }
    let rl = nb_run_exec(s, k + 1);
    rl > 0 && k + 1 + rl == n - 1
}

fn ext_word_exec(s: &Vec<char>, i: usize) -> (r: bool)
    ensures
        r == ext_word_at(s@, i as int),
{
    let n = s.len();
    if i > n || n - i < 8 {
        return false;
    }
    let ok = s[i] == 'E' && s[i + 1] == 'x' && s[i + 2] == 't' && s[i + 3] == 'e' && s[i + 4] == 'n'
        && s[i + 5] == 'd' && s[i + 6] == 'e' && s[i + 7] == 'd';
    let ghost sub = s@.subrange(i as int, i + 8);
    if ok {
        assert(sub == extended_word());
    } else {
        assert(sub != extended_word()) by {
            if sub == extended_word() {
                assert(sub[0] == s@[i as int]);
                assert(sub[1] == s@[i + 1]);
                assert(sub[2] == s@[i + 2]);
                assert(sub[3] == s@[i + 3]);
                assert(sub[4] == s@[i + 4]);
                assert(sub[5] == s@[i + 5]);
                assert(sub[6] == s@[i + 6]);
                assert(sub[7] == s@[i + 7]);
            }
        }
    }
    ok
}

fn make_tail(r: (usize, usize, Option<usize>, usize), ep_lo: usize, ep_hi: usize, extended: bool) -> (t: Tail)
    ensures
        t == rest_tail(
            (
                r.0 as int,
                r.1 as int,
                match r.2 {
                    Some(c) => Some(c as int),
                    None => None,
                },
                r.3 as int,
            ),
            ep_lo as int,
            ep_hi as int,
            extended,
        ),
{
    Tail { ep_lo, ep_hi, extended, res_lo: r.0, res_hi: r.1, crc: r.2, ext: r.3 }
}

/// Bounds every tail that `tail_spec` can produce.
pub open spec fn tail_in_bounds(s: Seq<char>, t: Tail) -> bool {
    &&& t.ep_lo <= t.ep_hi <= s.len()
    &&& t.res_lo <= t.res_hi <= s.len()
    &&& t.ext <= s.len()
    &&& (t.crc matches Some(c) ==> c + 8 <= s.len())
}

fn tail_exec(g: Grammar, s: &Vec<char>, i: usize) -> (r: Option<Tail>)
    requires
        i <= s@.len(),
    ensures
        r == tail_spec(g, s@, i as int),
        r matches Some(t) ==> tail_in_bounds(s@, t),
{
    match g {
        Grammar::SingleFile => match rest_exec(s, i) {
            Some(x) => Some(make_tail(x, 0, 0, false)),
            None => None,
        },
        Grammar::ArcFolder => {
            if folder_tail_exec(s, i) {
                Some(Tail { ep_lo: 0, ep_hi: 0, extended: false, res_lo: 0, res_hi: 0, crc: None, ext: 0 })
            } else {
                None
            }
        },
        Grammar::EpisodeFile => {
            let _n = s.len();
            let w = ws_run_exec(s, i);
            let d0 = i + w;
            let dl = dg_run_exec(s, d0);
            let d1 = d0 + dl;
            let x = ws_run_exec(s, d1);
            if w == 0 || dl == 0 {
                return None;
            }
            if x > 0 && ext_word_exec(s, d1 + x) {
                match rest_exec(s, d1 + x + 8) {
                    Some(y) => {
                        return Some(make_tail(y, d0, d1, true));
                    },
                    None => {},
                }
            }
            match rest_exec(s, d1) {
                Some(y) => Some(make_tail(y, d0, d1, false)),
                None => None,
            }
        },
    }
}

fn arc_search_exec(g: Grammar, s: &Vec<char>, e0: usize) -> (r: Option<(usize, Tail)>)
    requires
        1 <= e0,
    ensures
        r matches Some(x) ==> arc_search(g, s@, e0 as int) == Some((x.0 as int, x.1)) && e0 <= x.0
            <= s@.len() && tail_in_bounds(s@, x.1),
        r is None ==> arc_search(g, s@, e0 as int) is None,
{
    let n = s.len();
    let mut e = e0;
    loop
        invariant
            n == s@.len(),
            1 <= e0 <= e,
            arc_search(g, s@, e0 as int) == arc_search(g, s@, e as int),
        decreases n + 1 - e,
    {
        if e > n || s[e - 1] == '\n' {
            return None;
        }
        match tail_exec(g, s, e) {
            Some(t) => {
                return Some((e, t));
            },
            None => {},
        }
        if e == n {
            assert(arc_search(g, s@, e + 1) is None);
            return None;
        }
        e = e + 1;
    }
}

fn head_search_exec(g: Grammar, s: &Vec<char>, p: usize, w: usize) -> (r: Option<(usize, usize, Tail)>)
    requires
        p + w <= s@.len(),
    ensures
        r matches Some(x) ==> head_search(g, s@, p as int, w as int) == Some(
            (x.0 as int, x.1 as int, x.2),
        ) && p < x.0 < x.1 <= s@.len() && tail_in_bounds(s@, x.2),
        r is None ==> head_search(g, s@, p as int, w as int) is None,
{
    let n = s.len();
    let mut s1 = w;
    while s1 >= 1
        invariant
            n == s@.len(),
            s1 <= w,
            p + w <= s@.len(),
            head_search(g, s@, p as int, w as int) == head_search(g, s@, p as int, s1 as int),
        decreases s1,
    {
        if p + s1 < n {
            match arc_search_exec(g, s, p + s1 + 1) {
                Some((e, t)) => {
                    return Some((p + s1, e, t));
                },
                None => {},
            }
        }
        s1 = s1 - 1;
    }
    None
}

fn grammar_match_exec(g: Grammar, s: &Vec<char>) -> (r: Option<(usize, usize, usize, Tail)>)
    ensures
        r matches Some(x) ==> grammar_match(g, s@) == Some(
            (x.0 as int, x.1 as int, x.2 as int, x.3),
        ) && 11 <= x.0 < x.1 < x.2 <= s@.len() && tail_in_bounds(s@, x.3),
        r is None ==> grammar_match(g, s@) is None,
{
    let _n = s.len();
    match range_close_exec(s) {
        Some(rc) => {
            let w = ws_run_exec(s, rc + 1);
            match head_search_exec(g, s, rc + 1, w) {
                Some((a, e, t)) => Some((rc, a, e, t)),
                None => None,
            }
        },
        None => None,
    }
}

fn build_parsed(s: &Vec<char>, m: (usize, usize, usize, Tail), episode: u32) -> (r: ParsedFile)
    requires
        11 <= m.0 < m.1 < m.2 <= s@.len(),
        tail_in_bounds(s@, m.3),
    ensures
        r@ == match_view(s@, (m.0 as int, m.1 as int, m.2 as int, m.3), episode),
{
    let n = s.len();
    let (rc, a, e, t) = m;
    let arc = trim_range(s, a, e);
    let range = slice_chars(s, 11, rc);
    let res = slice_chars(s, t.res_lo, t.res_hi);
    let crc32 = match t.crc {
        Some(c) => {
            let raw = slice_chars(s, c, c + 8);
            let up = to_ascii_uppercase(&raw);
            Some(string_of(&up))
        },
        None => None,
    };
    let ext = slice_chars(s, t.ext, n);
    ParsedFile {
        arc: string_of(&arc),
        episode,
        chapter_range: string_of(&range),
        resolution: Some(string_of(&res)),
        crc32,
        extension: string_of(&ext),
        extended: t.extended,
    }
}

impl ParsedFile {
    /// Recognise a release filename (a bare name, not a path).
    pub fn from_filename(name: &str) -> (r: Option<ParsedFile>)
        ensures
            match r {
                Some(p) => parse_filename_spec(name@) == Some(p@),
                None => parse_filename_spec(name@) is None,
            },
    {
        let s = chars_of(name);
        match grammar_match_exec(Grammar::EpisodeFile, &s) {
            Some(m) => {
                let ep = parse_u32_range(&s, m.3.ep_lo, m.3.ep_hi);
                match ep {
                    Some(v) => Some(build_parsed(&s, m, v)),
                    None => None,
                }
            },
            None => match grammar_match_exec(Grammar::SingleFile, &s) {
                Some(m) => Some(build_parsed(&s, m, 1)),
                None => None,
            },
        }
    }

    /// Recognise the file name (last path component) of `path`.
    pub fn from_path(path: &str) -> (r: Option<ParsedFile>)
        ensures
            match paths::file_name_spec(path@) {
                Some(n) => match r {
                    Some(p) => parse_filename_spec(n) == Some(p@),
                    None => parse_filename_spec(n) is None,
                },
                None => r is None,
            },
    {
        match paths::file_name(path) {
            Some(n) => ParsedFile::from_filename(n.as_str()),
            None => None,
        }
    }
}

/// True if `name` looks like an arc folder: `[One Pace][<range>] <Arc> [<res>]`.
pub fn is_arc_folder_name(name: &str) -> (r: bool)
    ensures
        r == (grammar_match(Grammar::ArcFolder, name@) is Some),
{
    let s = chars_of(name);
    grammar_match_exec(Grammar::ArcFolder, &s).is_some()
}

/// The arc an arc folder's name carries: the lazy capture between the
/// chapter range and the resolution, trimmed.
pub open spec fn folder_arc_spec(name: Seq<char>) -> Option<Seq<char>> {
    match grammar_match(Grammar::ArcFolder, name) {
        Some(m) => Some(text::trim_spec(name.subrange(m.1, m.2))),
        None => None,
    }
}

/// The arc name of an arc folder `[One Pace][<range>] <Arc> [<res>]`
/// (the lazy capture between range and resolution, trimmed).
pub fn arc_from_folder_name(name: &str) -> (r: Option<String>)
    ensures
        opt_view(r) == folder_arc_spec(name@),
{
    let s = chars_of(name);
    match grammar_match_exec(Grammar::ArcFolder, &s) {
        Some((_r, a, e, _t)) => {
            let arc = trim_range(&s, a, e);
            Some(string_of(&arc))
        },
        None => None,
    }
}

// ---------- arc-name normalisation ----------

/// Left fold of `normalize_arc` over `s`: the output so far, and whether
/// the last thing emitted was a separator (initially true).
pub open spec fn norm_fold(s: Seq<char>) -> (Seq<char>, bool)
    decreases s.len(),
{
    if s.len() == 0 {
        (seq![], true)
    } else {
        let (out, prev_space) = norm_fold(s.drop_last());
        let c = s.last();
        if text::unicode_alphanumeric(c) {
            (out + text::unicode_lowercase(c), false)
        } else if !prev_space {
            (out.push(' '), true)
        } else {
            (out, prev_space)
        }
    }
}

/// `normalize_arc`: alphanumerics lowercased, every run of other
/// characters after an alphanumeric collapsed to one space, and a trailing
/// space dropped.
pub open spec fn normalize_arc_spec(s: Seq<char>) -> Seq<char> {
    let out = norm_fold(s).0;
    if out.len() > 0 && out.last() == ' ' {
        out.drop_last()
    } else {
        out
    }
}

/// Normal form of an arc name: lowercase ASCII letters and digits in
/// words separated by single spaces, no space at either end.
pub open spec fn is_normal_arc(t: Seq<char>) -> bool {
    &&& forall|i: int| 0 <= i < t.len() ==> lower_word_char(#[trigger] t[i])
    &&& t.len() > 0 ==> t[0] != ' ' && t.last() != ' '
    &&& forall|i: int| 0 <= i < t.len() - 1 ==> #[trigger] t[i] == ' ' ==> t[i + 1] != ' '
}

pub open spec fn lower_word_char(c: char) -> bool {
    c == ' ' || text::is_ascii_digit(c) || text::is_ascii_lower(c)
}

/// What `norm_fold` keeps of its output: word characters and single
/// spaces, none leading, and the separator flag says whether the output
/// is empty or ends in a space.
spec fn fold_shape(out: Seq<char>, prev_space: bool) -> bool {
    &&& forall|i: int| 0 <= i < out.len() ==> lower_word_char(#[trigger] out[i])
    &&& out.len() > 0 ==> out[0] != ' '
    &&& forall|i: int| 0 <= i < out.len() - 1 ==> #[trigger] out[i] == ' ' ==> out[i + 1] != ' '
    &&& prev_space == (out.len() == 0 || out.last() == ' ')
}

proof fn lemma_fold_ascii(s: Seq<char>)
    requires
        forall|i: int| 0 <= i < s.len() ==> (#[trigger] s[i] as u32) < 128,
    ensures
        fold_shape(norm_fold(s).0, norm_fold(s).1),
    decreases s.len(),
{
    if s.len() > 0 {
        let d = s.drop_last();
        assert forall|i: int| 0 <= i < d.len() implies (#[trigger] d[i] as u32) < 128 by {
            assert(d[i] == s[i]);
        }
        lemma_fold_ascii(d);
        let (out, prev) = norm_fold(d);
        let c = s.last();
        assert((c as u32) < 128) by {
            assert(c == s[s.len() - 1]);
        }
        let (o2, p2) = norm_fold(s);
        if text::unicode_alphanumeric(c) {
            assert(o2 == out + seq![text::ascii_lower(c)]);
            assert forall|i: int| 0 <= i < o2.len() implies lower_word_char(#[trigger] o2[i]) by {
                if i < out.len() {
                    assert(o2[i] == out[i]);
                }
            }
            assert forall|i: int| 0 <= i < o2.len() - 1 && #[trigger] o2[i] == ' ' implies o2[i + 1] != ' ' by {
                if i + 1 < out.len() {
                    assert(o2[i] == out[i] && o2[i + 1] == out[i + 1]);
                }
            }
            if out.len() > 0 {
                assert(o2[0] == out[0]);
            }
        } else if !prev {
            assert(o2 == out.push(' '));
            assert forall|i: int| 0 <= i < o2.len() implies lower_word_char(#[trigger] o2[i]) by {
                if i < out.len() {
                    assert(o2[i] == out[i]);
                }
            }
            assert forall|i: int| 0 <= i < o2.len() - 1 && #[trigger] o2[i] == ' ' implies o2[i + 1] != ' ' by {
                if i + 1 < out.len() {
                    assert(o2[i] == out[i] && o2[i + 1] == out[i + 1]);
                } else {
                    assert(o2[i] == out.last());
                }
            }
            assert(o2[0] == out[0]);
        }
    }
}

proof fn lemma_fold_normal(t: Seq<char>)
    requires
        forall|i: int| 0 <= i < t.len() ==> lower_word_char(#[trigger] t[i]),
        t.len() > 0 ==> t[0] != ' ',
        forall|i: int| 0 <= i < t.len() - 1 ==> #[trigger] t[i] == ' ' ==> t[i + 1] != ' ',
    ensures
        norm_fold(t) == (t, t.len() == 0 || t.last() == ' '),
    decreases t.len(),
{
    if t.len() > 0 {
        let d = t.drop_last();
        assert forall|i: int| 0 <= i < d.len() implies lower_word_char(#[trigger] d[i]) by {
            assert(d[i] == t[i]);
        }
        assert forall|i: int| 0 <= i < d.len() - 1 && #[trigger] d[i] == ' ' implies d[i + 1] != ' ' by {
            assert(d[i] == t[i] && d[i + 1] == t[i + 1]);
        }
        if d.len() > 0 {
            assert(d[0] == t[0]);
        }
        lemma_fold_normal(d);
        let c = t.last();
        assert(lower_word_char(c)) by {
            assert(c == t[t.len() - 1]);
        }
        if c == ' ' {
            assert(d.len() > 0);
            assert(t[d.len() - 1] == ' ' ==> t[d.len() as int] != ' ');
            assert(d.last() == t[d.len() - 1]);
            assert(d.push(' ') == t);
        } else {
            assert(d + seq![text::ascii_lower(c)] == t);
        }
    }
}

/// Arc names in ASCII normalize to lowercase words separated by single
/// spaces, with no space at either end, and normalizing that again
/// changes nothing.
pub proof fn law_normalize_arc_ascii(s: Seq<char>)
    requires
        forall|i: int| 0 <= i < s.len() ==> (#[trigger] s[i] as u32) < 128,
    ensures
        is_normal_arc(normalize_arc_spec(s)),
        normalize_arc_spec(normalize_arc_spec(s)) == normalize_arc_spec(s),
{
    lemma_fold_ascii(s);
    let out = norm_fold(s).0;
    let r = normalize_arc_spec(s);
    if out.len() > 0 && out.last() == ' ' {
        assert(r == out.drop_last());
        assert forall|i: int| 0 <= i < r.len() implies lower_word_char(#[trigger] r[i]) by {
            assert(r[i] == out[i]);
        }
        assert forall|i: int| 0 <= i < r.len() - 1 && #[trigger] r[i] == ' ' implies r[i + 1] != ' ' by {
            assert(r[i] == out[i] && r[i + 1] == out[i + 1]);
        }
        if r.len() > 0 {
            assert(r[0] == out[0]);
            assert(r.last() == out[r.len() - 1]);
            assert(out[r.len() - 1] == ' ' ==> out[r.len() as int] != ' ');
        }
    }
    lemma_fold_normal(r);
}

proof fn lemma_fold_upper(s: Seq<char>)
    requires
        forall|i: int| 0 <= i < s.len() ==> (#[trigger] s[i] as u32) < 128,
    ensures
        norm_fold(text::seq_ascii_upper(s)) == norm_fold(s),
    decreases s.len(),
{
    if s.len() > 0 {
        let d = s.drop_last();
        assert forall|i: int| 0 <= i < d.len() implies (#[trigger] d[i] as u32) < 128 by {
            assert(d[i] == s[i]);
        }
        lemma_fold_upper(d);
        let u = text::seq_ascii_upper(s);
        assert(u.drop_last() =~= text::seq_ascii_upper(d));
        let c = s.last();
        assert((c as u32) < 128) by {
            assert(c == s[s.len() - 1]);
        }
        let cu = text::ascii_upper(c);
        assert(u.last() == cu);
        assert((cu as u32) < 128);
        assert(text::is_ascii_alnum(cu) == text::is_ascii_alnum(c));
        assert(text::ascii_lower(cu) == text::ascii_lower(c));
    }
}

/// The maximal runs of ASCII letters and digits of `s`, lowercased, in
/// order.
pub open spec fn ascii_words(s: Seq<char>) -> Seq<Seq<char>>
    decreases s.len(),
{
    if s.len() == 0 {
        seq![]
    } else {
        let w = ascii_words(s.drop_last());
        let c = s.last();
        if text::is_ascii_alnum(c) {
            if s.len() >= 2 && text::is_ascii_alnum(s[s.len() - 2]) {
                w.update(w.len() - 1, w.last().push(text::ascii_lower(c)))
            } else {
                w.push(seq![text::ascii_lower(c)])
            }
        } else {
            w
        }
    }
}

/// Words joined by single spaces.
pub open spec fn join_words(w: Seq<Seq<char>>) -> Seq<char>
    decreases w.len(),
{
    if w.len() == 0 {
        seq![]
    } else if w.len() == 1 {
        w[0]
    } else {
        join_words(w.drop_last()) + seq![' '] + w.last()
    }
}

/// `norm_fold` of an ASCII name: its words joined, with one space after
/// them when something other than a letter or digit followed the last
/// word; the separator flag says whether no word is open.
spec fn fold_words(s: Seq<char>) -> bool {
    let (out, prev) = norm_fold(s);
    let w = ascii_words(s);
    let sep = w.len() > 0 && !text::is_ascii_alnum(s.last());
    &&& out == if sep { join_words(w).push(' ') } else { join_words(w) }
    &&& prev == (w.len() == 0 || !text::is_ascii_alnum(s.last()))
    &&& w.len() > 0 ==> w.last().len() > 0 && w.last().last() != ' '
    &&& (s.len() > 0 && text::is_ascii_alnum(s.last())) ==> w.len() > 0
}

proof fn lemma_join_push_last(w: Seq<Seq<char>>, x: char)
    requires
        w.len() > 0,
    ensures
        join_words(w.update(w.len() - 1, w.last().push(x))) == join_words(w).push(x),
{
    let u = w.update(w.len() - 1, w.last().push(x));
    if w.len() == 1 {
        assert(u[0] == w[0].push(x));
    } else {
        assert(u.drop_last() == w.drop_last());
        assert(u.last() == w.last().push(x));
        assert(join_words(w.drop_last()) + seq![' '] + w.last().push(x) == (join_words(w.drop_last()) + seq![' ']
            + w.last()).push(x));
    }
}

proof fn lemma_join_last(w: Seq<Seq<char>>)
    requires
        w.len() > 0,
        w.last().len() > 0,
    ensures
        join_words(w).len() > 0,
        join_words(w).last() == w.last().last(),
{
    if w.len() > 1 {
        let j = join_words(w.drop_last()) + seq![' '] + w.last();
        assert(j.last() == w.last().last());
    }
}

proof fn lemma_fold_words_step(s: Seq<char>)
    requires
        s.len() > 0,
        (s.last() as u32) < 128,
        fold_words(s.drop_last()),
    ensures
        fold_words(s),
{
    let d = s.drop_last();
    let c = s.last();
    let w = ascii_words(d);
    let out = norm_fold(d).0;
    let prev = norm_fold(d).1;
    let alnum = text::is_ascii_alnum(c);
    let lc = text::ascii_lower(c);
    assert(text::unicode_alphanumeric(c) == alnum);
    assert(text::unicode_lowercase(c) == seq![lc]);
    let prev_alnum = s.len() >= 2 && text::is_ascii_alnum(s[s.len() - 2]);
    if d.len() > 0 {
        assert(d.last() == s[s.len() - 2]);
    }
    assert(prev_alnum == (d.len() > 0 && text::is_ascii_alnum(d.last())));
    if alnum {
        assert(lc != ' ');
        assert(norm_fold(s) == (out + seq![lc], false));
        if prev_alnum {
            assert(w.len() > 0);
            assert(out == join_words(w));
            lemma_join_push_last(w, lc);
            let w2 = w.update(w.len() - 1, w.last().push(lc));
            assert(ascii_words(s) == w2);
            assert(out + seq![lc] == out.push(lc));
            assert(w2.last() == w.last().push(lc));
            assert(fold_words(s));
        } else {
            let w2 = w.push(seq![lc]);
            assert(ascii_words(s) == w2);
            assert(w2.drop_last() == w);
            assert(w2.last() == seq![lc]);
            if w.len() > 0 {
                assert(out == join_words(w).push(' '));
                assert(join_words(w2) == join_words(w) + seq![' '] + seq![lc]);
                assert(join_words(w).push(' ') + seq![lc] == join_words(w) + seq![' '] + seq![lc]);
            } else {
                assert(out == join_words(w));
                assert(join_words(w) == Seq::<char>::empty());
                assert(join_words(w2) == seq![lc]);
                assert(Seq::<char>::empty() + seq![lc] == seq![lc]);
            }
            assert(fold_words(s));
        }
    } else {
        assert(ascii_words(s) == w);
        if !prev {
            assert(norm_fold(s) == (out.push(' '), true));
            assert(w.len() > 0 && text::is_ascii_alnum(d.last()));
            assert(out == join_words(w));
        } else {
            assert(norm_fold(s) == (out, prev));
        }
        assert(fold_words(s));
    }
}

proof fn lemma_fold_words(s: Seq<char>)
    requires
        forall|i: int| 0 <= i < s.len() ==> (#[trigger] s[i] as u32) < 128,
    ensures
        fold_words(s),
    decreases s.len(),
{
    if s.len() > 0 {
        let d = s.drop_last();
        assert forall|i: int| 0 <= i < d.len() implies (#[trigger] d[i] as u32) < 128 by {
            assert(d[i] == s[i]);
        }
        lemma_fold_words(d);
        assert((s.last() as u32) < 128) by {
            assert(s.last() == s[s.len() - 1]);
        }
        lemma_fold_words_step(s);
    } else {
        assert(norm_fold(s) == (Seq::<char>::empty(), true));
    }
}

/// Arc names in ASCII normalize to their maximal runs of letters and
/// digits, lowercased, joined by single spaces.
pub proof fn law_normalize_arc_words(s: Seq<char>)
    requires
        forall|i: int| 0 <= i < s.len() ==> (#[trigger] s[i] as u32) < 128,
    ensures
        normalize_arc_spec(s) == join_words(ascii_words(s)),
{
    lemma_fold_words(s);
    let w = ascii_words(s);
    let out = norm_fold(s).0;
    if w.len() > 0 {
        lemma_join_last(w);
    }
    if w.len() > 0 && !text::is_ascii_alnum(s.last()) {
        assert(out.drop_last() == join_words(w));
    } else if w.len() == 0 {
        assert(out == Seq::<char>::empty());
    }
}

/// Letter case does not matter: an ASCII arc name and its uppercase
/// normalize alike.
pub proof fn law_normalize_arc_ignores_case(s: Seq<char>)
    requires
        forall|i: int| 0 <= i < s.len() ==> (#[trigger] s[i] as u32) < 128,
    ensures
        normalize_arc_spec(text::seq_ascii_upper(s)) == normalize_arc_spec(s),
{
    lemma_fold_upper(s);
}

/// Normalize an arc name for matching: lowercase, collapse whitespace,
/// strip punctuation that varies between sources (commas, apostrophes).
pub fn normalize_arc(name: &str) -> (r: String)
    ensures
        r@ == normalize_arc_spec(name@),
{
    let v = chars_of(name);
    let out = normalize_arc_chars(&v);
    string_of(&out)
}

pub fn normalize_arc_chars(v: &Vec<char>) -> (r: Vec<char>)
    ensures
        r@ == normalize_arc_spec(v@),
{
    let mut out: Vec<char> = Vec::new();
    let mut prev_space = true;
    let mut i: usize = 0;
    while i < v.len()
        invariant
            i <= v@.len(),
            (out@, prev_space) == norm_fold(v@.subrange(0, i as int)),
        decreases v@.len() - i,
    {
        let c = v[i];
        assert(v@.subrange(0, i + 1).drop_last() == v@.subrange(0, i as int));
        if char_is_alphanumeric(c) {
            let low = char_to_lowercase(c);
            push_all(&mut out, &low);
            prev_space = false;
        } else if !prev_space {
            out.push(' ');
            prev_space = true;
        }
        i = i + 1;
    }
    assert(v@.subrange(0, v@.len() as int) == v@);
    if out.len() > 0 && out[out.len() - 1] == ' ' {
        out.pop();
    }
    out
}

} // verus!
