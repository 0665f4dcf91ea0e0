//! Downloadable releases: magnet URIs, their `dn=` display names, and the
//! pixel height a release's resolution token stands for.

use vstd::prelude::*;
use vstd::utf8::{encode_utf8, valid_utf8, decode_utf8};

use crate::matcher::{self, ParsedFile};
use crate::text::{self, chars_of, string_of, slice_chars, split_on_exec, first_index_exec,
    has_prefix_exec, is_hex_digit_char, is_ascii_digit_char, parse_u32_range,
    string_from_utf8_lossy};

verus! {

/// One downloadable episode/file from an upstream releases listing.
pub struct Release {
    /// Raw magnet URI, ready to feed to a torrent client.
    pub magnet: String,
    /// Filename pulled from the magnet's `dn=` parameter.
    pub filename: String,
    /// Parser output for `filename`; `None` when it is not a One Pace name.
    pub parsed: Option<ParsedFile>,
}

pub struct ReleaseView {
    pub magnet: Seq<char>,
    pub filename: Seq<char>,
    pub parsed: Option<matcher::ParsedFileView>,
}

pub open spec fn opt_parsed_view(o: Option<ParsedFile>) -> Option<matcher::ParsedFileView> {
    match o {
        Some(p) => Some(p@),
        None => None,
    }
}

impl View for Release {
    type V = ReleaseView;

    open spec fn view(&self) -> ReleaseView {
        ReleaseView { magnet: self.magnet@, filename: self.filename@, parsed: opt_parsed_view(self.parsed) }
    }
}

impl Release {
    pub fn clone_release(&self) -> (r: Release)
        ensures
            r@ == self@,
    {
        Release {
            magnet: self.magnet.clone(),
            filename: self.filename.clone(),
            parsed: match &self.parsed {
                Some(p) => Some(p.clone_parsed()),
                None => None,
            },
        }
    }

    /// Pixel height parsed from the resolution token, e.g. `1080p` → 1080,
    /// `640x480 x265 AAC` → 480.
    pub fn height(&self) -> (r: Option<u32>)
        ensures
            r == release_height(self@),
    {
        match &self.parsed {
            Some(p) => match &p.resolution {
                Some(res) => height_of_resolution(res.as_str()),
                None => None,
            },
            None => None,
        }
    }
}

/// Height of a release: that of its parsed resolution token.
pub open spec fn release_height(r: ReleaseView) -> Option<u32> {
    match r.parsed {
        Some(p) => match p.resolution {
            Some(res) => height_spec(res),
            None => None,
        },
        None => None,
    }
}

// ---------- magnet parsing ----------

/// The info-hash and display name of a magnet URI.
pub struct ParsedMagnet {
    pub btih: String,
    pub display_name: Option<String>,
}

pub struct ParsedMagnetView {
    pub btih: Seq<char>,
    pub display_name: Option<Seq<char>>,
}

impl View for ParsedMagnet {
    type V = ParsedMagnetView;

    open spec fn view(&self) -> ParsedMagnetView {
        ParsedMagnetView { btih: self.btih@, display_name: matcher::opt_view(self.display_name) }
    }
}

pub open spec fn magnet_scheme() -> Seq<char> {
    seq!['m', 'a', 'g', 'n', 'e', 't', ':', '?']
}

pub open spec fn btih_prefix() -> Seq<char> {
    seq!['u', 'r', 'n', ':', 'b', 't', 'i', 'h', ':']
}

pub open spec fn key_xt() -> Seq<char> {
    seq!['x', 't']
}

pub open spec fn key_dn() -> Seq<char> {
    seq!['d', 'n']
}

/// The `(btih, dn)` seen after the given `&`-separated pairs, later pairs
/// overriding earlier ones; a pair without `=` is passed over.
pub open spec fn magnet_fold(pairs: Seq<Seq<char>>) -> (Option<Seq<char>>, Option<Seq<char>>)
    decreases pairs.len(),
{
    if pairs.len() == 0 {
        (None, None)
    } else {
        let (b, d) = magnet_fold(pairs.drop_last());
        let pair = pairs.last();
        match text::first_index(pair, '=') {
            None => (b, d),
            Some(i) => {
                let k = pair.subrange(0, i);
                let v = pair.subrange(i + 1, pair.len() as int);
                if k == key_xt() {
                    if text::has_prefix(v, btih_prefix()) {
                        (Some(v.subrange(9, v.len() as int)), d)
                    } else {
                        (b, d)
                    }
                } else if k == key_dn() {
                    (b, Some(urldecode_spec(v)))
                } else {
                    (b, d)
                }
            },
        }
    }
}

/// What `parse_magnet` returns.
pub open spec fn parse_magnet_spec(uri: Seq<char>) -> Option<ParsedMagnetView> {
    if !text::has_prefix(uri, magnet_scheme()) {
        None
    } else {
        let body = uri.subrange(8, uri.len() as int);
        match magnet_fold(text::split_on(body, '&')) {
            (Some(b), d) => Some(ParsedMagnetView { btih: b, display_name: d }),
            _ => None,
        }
    }
}

fn magnet_scheme_vec() -> (r: Vec<char>)
    ensures
        r@ == magnet_scheme(),
{
    let r = vec!['m', 'a', 'g', 'n', 'e', 't', ':', '?'];
    assert(r@ == magnet_scheme());
    r
}

fn btih_prefix_vec() -> (r: Vec<char>)
    ensures
        r@ == btih_prefix(),
{
    let r = vec!['u', 'r', 'n', ':', 'b', 't', 'i', 'h', ':'];
    assert(r@ == btih_prefix());
    r
}

fn is_key(k: &Vec<char>, a: char, b: char) -> (r: bool)
    ensures
        r == (k@ == seq![a, b]),
{
    let r = k.len() == 2 && k[0] == a && k[1] == b;
    proof {
        if k@ == seq![a, b] {
            assert(k@[0] == a && k@[1] == b);
        }
        if r {
            assert(k@ == seq![a, b]);
        }
    }
    r
}

/// Parse a `magnet:?…` URI into its useful components. Returns `None` if
/// the input isn't a magnet URI or lacks an info-hash; a pair without `=`
/// is passed over. Tracker URLs are not validated.
pub fn parse_magnet(uri: &str) -> (r: Option<ParsedMagnet>)
    ensures
        match r {
            Some(m) => parse_magnet_spec(uri@) == Some(m@),
            None => parse_magnet_spec(uri@) is None,
        },
{
    let s = chars_of(uri);
    let scheme = magnet_scheme_vec();
    if !has_prefix_exec(&s, &scheme) {
        return None;
    }
    let body = slice_chars(&s, 8, s.len());
    let pairs = split_on_exec(&body, '&');
    let ghost pv = text::views(pairs@);
    let pfx = btih_prefix_vec();
    assert(pv == text::split_on(uri@.subrange(8, uri@.len() as int), '&'));
    let mut btih: Option<Vec<char>> = None;
    let mut dn: Option<Vec<char>> = None;
    let mut i: usize = 0;
    while i < pairs.len()
        invariant
            i <= pairs@.len(),
            pv == text::views(pairs@),
            uri@.len() >= 8,
            pv == text::split_on(uri@.subrange(8, uri@.len() as int), '&'),
            pfx@ == btih_prefix(),
            magnet_fold(pv.subrange(0, i as int)) == (
                match btih {
                    Some(v) => Some(v@),
                    None => None::<Seq<char>>,
                },
                match dn {
                    Some(v) => Some(v@),
                    None => None::<Seq<char>>,
                },
            ),
        decreases pairs@.len() - i,
    {
        let pair = &pairs[i];
        let plen = pair.len();
        assert(pv.subrange(0, i + 1).drop_last() == pv.subrange(0, i as int));
        assert(pv.subrange(0, i + 1).last() == pair@);
        let eq = first_index_exec(pair, '=');
        match eq {
            None => {},
            Some(j) => {
                let k = slice_chars(pair, 0, j);
                let v = slice_chars(pair, j + 1, plen);
                if is_key(&k, 'x', 't') {
                    if has_prefix_exec(&v, &pfx) {
                        btih = Some(slice_chars(&v, 9, v.len()));
                    }
                } else if is_key(&k, 'd', 'n') {
                    dn = Some(urldecode_chars(&v));
                }
            },
        }
        i = i + 1;
    }
    assert(pv.subrange(0, pairs@.len() as int) == pv);
    match btih {
        Some(b) => Some(
            ParsedMagnet {
                btih: string_of(&b),
                display_name: match dn {
                    Some(d) => Some(string_of(&d)),
                    None => None,
                },
            },
        ),
        None => None,
    }
}

// ---------- percent decoding ----------

/// The bytes that `urldecode_plus` collects before UTF-8 decoding: `+` is
/// a space, `%XX` with two hex digits is that byte, a malformed `%` is
/// kept literally together with the (up to two) characters after it, and
/// any other character contributes its UTF-8 encoding.
pub open spec fn decode_bytes(s: Seq<char>) -> Seq<u8>
    decreases s.len(),
{
    if s.len() == 0 {
        seq![]
    } else if s[0] == '+' {
        seq![0x20u8] + decode_bytes(s.skip(1))
    } else if s[0] == '%' {
        if s.len() >= 3 && text::is_hex_digit(s[1]) && text::is_hex_digit(s[2]) {
            seq![(text::hex_val(s[1]) * 16 + text::hex_val(s[2])) as u8] + decode_bytes(s.skip(3))
        } else {
            let k: int = if s.len() >= 3 { 3 } else { s.len() as int };
            seq![0x25u8] + encode_utf8(s.subrange(1, k)) + decode_bytes(s.skip(k))
        }
    } else {
        encode_utf8(seq![s[0]]) + decode_bytes(s.skip(1))
    }
}

/// What `urldecode_plus` returns.
pub open spec fn urldecode_spec(s: Seq<char>) -> Seq<char> {
    text::utf8_lossy(decode_bytes(s))
}

fn hex_value(c: char) -> (r: u8)
    requires
        text::is_hex_digit(c),
    ensures
        r as nat == text::hex_val(c),
{
    if '0' <= c && c <= '9' {
        ((c as u8) - 48u8)
    } else if 'a' <= c && c <= 'f' {
        ((c as u8) - 97u8 + 10u8)
    } else {
        ((c as u8) - 65u8 + 10u8)
    }
}

/// Appends the UTF-8 encoding of `c`.
pub fn push_utf8(out: &mut Vec<u8>, c: char)
    ensures
        final(out)@ == old(out)@ + encode_utf8(seq![c]),
{
    let v = c as u32;
    proof {
        assert(encode_utf8(seq![c]) == vstd::utf8::encode_scalar(c as u32) + encode_utf8(
            seq![c].drop_first(),
        ));
        assert(seq![c].drop_first().len() == 0);
        assert(encode_utf8(seq![c].drop_first()) == Seq::<u8>::empty());
    }
    if v <= 0x7F {
        out.push((v & 0x7F) as u8);
    } else if v <= 0x7FF {
        out.push(0xC0u8 | ((v >> 6) & 0x1F) as u8);
        out.push(0x80u8 | (v & 0x3F) as u8);
    } else if v <= 0xFFFF {
        out.push(0xE0u8 | ((v >> 12) & 0x0F) as u8);
        out.push(0x80u8 | ((v >> 6) & 0x3F) as u8);
        out.push(0x80u8 | (v & 0x3F) as u8);
    } else {
        out.push(0xF0u8 | ((v >> 18) & 0x7) as u8);
        out.push(0x80u8 | ((v >> 12) & 0x3F) as u8);
        out.push(0x80u8 | ((v >> 6) & 0x3F) as u8);
        out.push(0x80u8 | (v & 0x3F) as u8);
    }
    proof {
        vstd::utf8::char_is_scalar(c);
    }
}

proof fn lemma_encode_utf8_concat(a: Seq<char>, b: Seq<char>)
    ensures
        encode_utf8(a + b) == encode_utf8(a) + encode_utf8(b),
    decreases a.len(),
{
    if a.len() > 0 {
        lemma_encode_utf8_concat(a.drop_first(), b);
        assert((a + b).drop_first() == a.drop_first() + b);
    } else {
        assert(a + b == b);
    }
}

/// The bytes of `decode_bytes(s)`, computed left to right.
pub fn decode_bytes_exec(s: &Vec<char>) -> (r: Vec<u8>)
    ensures
        r@ == decode_bytes(s@),
{
    let n = s.len();
    let mut out: Vec<u8> = Vec::new();
    let mut i: usize = 0;
    assert(s@.skip(0) == s@);
    while i < n
        invariant
            n == s@.len(),
            i <= n,
            decode_bytes(s@) == out@ + decode_bytes(s@.skip(i as int)),
        decreases n - i,
    {
        let ghost t = s@.skip(i as int);
        let c = s[i];
        assert(t[0] == c);
        if c == '+' {
            out.push(0x20u8);
            assert(t.skip(1) == s@.skip(i + 1));
            i = i + 1;
        } else if c == '%' {
            if n - i >= 3 && is_hex_digit_char(s[i + 1]) && is_hex_digit_char(s[i + 2]) {
                assert(t[1] == s@[i + 1] && t[2] == s@[i + 2]);
                let hi = hex_value(s[i + 1]);
                let lo = hex_value(s[i + 2]);
                out.push(hi * 16 + lo);
                assert(t.skip(3) == s@.skip(i + 3));
                i = i + 3;
            } else {
                let k: usize = if n - i >= 3 {
                    3
                } else {
                    n - i
                };
                proof {
                    if n - i >= 3 {
                        assert(t[1] == s@[i + 1] && t[2] == s@[i + 2]);
                    }
                }
                out.push(0x25u8);
                if k >= 2 {
                    push_utf8(&mut out, s[i + 1]);
                }
                if k >= 3 {
                    push_utf8(&mut out, s[i + 2]);
                }
                proof {
                    if k == 3 {
                        assert(t.subrange(1, 3) == seq![t[1]] + seq![t[2]]);
                        lemma_encode_utf8_concat(seq![t[1]], seq![t[2]]);
                    } else if k == 2 {
                        assert(t.subrange(1, 2) == seq![t[1]]);
                    } else {
                        assert(t.subrange(1, 1) == Seq::<char>::empty());
                        assert(encode_utf8(Seq::<char>::empty()) == Seq::<u8>::empty());
                    }
                    assert(t.skip(k as int) == s@.skip(i + k));
                }
                i = i + k;
            }
        } else {
            push_utf8(&mut out, c);
            assert(t.skip(1) == s@.skip(i + 1));
            i = i + 1;
        }
    }
    assert(s@.skip(n as int).len() == 0);
    out
}

/// Minimal `application/x-www-form-urlencoded`-style decoder: `+` → space,
/// `%XX` → byte, then UTF-8 decoding with replacement characters.
pub fn urldecode_plus(input: &str) -> (r: String)
    ensures
        r@ == urldecode_spec(input@),
        valid_utf8(decode_bytes(input@)) ==> r@ == decode_utf8(decode_bytes(input@)),
{
    let s = chars_of(input);
    let b = decode_bytes_exec(&s);
    string_from_utf8_lossy(&b)
}

pub fn urldecode_chars(v: &Vec<char>) -> (r: Vec<char>)
    ensures
        r@ == urldecode_spec(v@),
        valid_utf8(decode_bytes(v@)) ==> r@ == decode_utf8(decode_bytes(v@)),
{
    let b = decode_bytes_exec(v);
    let s = string_from_utf8_lossy(&b);
    chars_of(s.as_str())
}

// ---------- resolution heights ----------

/// Length of the run of ASCII digits starting at `i`.
pub open spec fn ascii_digit_run(s: Seq<char>, i: int) -> nat
    decreases s.len() - i,
{
    if 0 <= i < s.len() && text::is_ascii_digit(s[i]) {
        1 + ascii_digit_run(s, i + 1)
    } else {
        0
    }
}

pub open spec fn opt_max(a: Option<u32>, b: Option<u32>) -> Option<u32> {
    match (a, b) {
        (Some(x), Some(y)) => Some(if x >= y { x } else { y }),
        (Some(x), None) => Some(x),
        (None, y) => y,
    }
}

/// Largest value in `[240, 2160]` among the maximal runs of 3 or 4 ASCII
/// digits at or after `i` (where `i` starts a run or a gap).
pub open spec fn runs_best(s: Seq<char>, i: int) -> Option<u32>
    decreases s.len() - i,
{
    if i < 0 || i >= s.len() {
        None
    } else if !text::is_ascii_digit(s[i]) {
        runs_best(s, i + 1)
    } else {
        proof {
            lemma_ascii_run_digits(s, i + 1);
        }
        let j = i + 1 + ascii_digit_run(s, i + 1);
        let d = s.subrange(i, j);
        let v = text::digits_value(d);
        let cand = if 3 <= d.len() <= 4 && 240 <= v <= 2160 {
            Some(v as u32)
        } else {
            None
        };
        opt_max(cand, runs_best(s, j))
    }
}

/// First `x` or `X`.
pub open spec fn first_x(s: Seq<char>) -> Option<int>
    decreases s.len(),
{
    if s.len() == 0 {
        None
    } else if s[0] == 'x' || s[0] == 'X' {
        Some(0)
    } else {
        match first_x(s.drop_first()) {
            Some(i) => Some(i + 1),
            None => None,
        }
    }
}

/// What `height_of_resolution` returns: a trailing `p` with a number
/// before it; else the digits right after the first `x`/`X`; else the
/// largest plausible 3-4 digit number in the token.
pub open spec fn height_spec(s: Seq<char>) -> Option<u32> {
    if s.len() > 0 && s.last() == 'p' && text::parse_u32_spec(s.drop_last()) is Some {
        text::parse_u32_spec(s.drop_last())
    } else {
        match first_x(s) {
            Some(i) if text::parse_u32_spec(
                s.subrange(i + 1, i + 1 + ascii_digit_run(s, i + 1)),
            ) is Some => text::parse_u32_spec(s.subrange(i + 1, i + 1 + ascii_digit_run(s, i + 1))),
            _ => runs_best(s, 0),
        }
    }
}

fn first_x_exec(s: &Vec<char>) -> (r: Option<usize>)
    ensures
        match r {
            Some(i) => first_x(s@) == Some(i as int) && i < s@.len(),
            None => first_x(s@) is None,
        },
{
    let mut i: usize = 0;
    assert(s@.skip(0) == s@);
    while i < s.len()
        invariant
            i <= s@.len(),
            first_x(s@) == match first_x(s@.skip(i as int)) {
                Some(k) => Some(k + i),
                None => None,
            },
        decreases s@.len() - i,
    {
        let ghost t = s@.skip(i as int);
        assert(t[0] == s@[i as int]);
        if s[i] == 'x' || s[i] == 'X' {
            return Some(i);
        }
        assert(t.drop_first() == s@.skip(i + 1));
        i = i + 1;
    }
    None
}

pub fn ascii_digit_run_exec(s: &Vec<char>, i: usize) -> (r: usize)
    requires
        i <= s@.len(),
    ensures
        r == ascii_digit_run(s@, i as int),
        i + r <= s@.len(),
{
    let mut j = i;
    while j < s.len() && is_ascii_digit_char(s[j])
        invariant
            i <= j <= s@.len(),
            ascii_digit_run(s@, i as int) == (j - i) + ascii_digit_run(s@, j as int),
        decreases s@.len() - j,
    {
        j = j + 1;
    }
    j - i
}

pub proof fn lemma_ascii_run_digits(s: Seq<char>, i: int)
    requires
        0 <= i <= s.len(),
    ensures
        i + ascii_digit_run(s, i) <= s.len(),
        text::all_ascii_digits(s.subrange(i, i + ascii_digit_run(s, i))),
    decreases s.len() - i,
{
    if 0 <= i < s.len() && text::is_ascii_digit(s[i]) {
        lemma_ascii_run_digits(s, i + 1);
        let r = ascii_digit_run(s, i);
        assert forall|k: int| 0 <= k < r implies text::is_ascii_digit(
            #[trigger] s.subrange(i, i + r)[k],
        ) by {
            if k > 0 {
                assert(s.subrange(i, i + r)[k] == s.subrange(i + 1, i + 1 + ascii_digit_run(s, i + 1))[k - 1]);
            }
        }
    }
}

fn runs_best_exec(s: &Vec<char>) -> (r: Option<u32>)
    ensures
        r == runs_best(s@, 0),
{
    let n = s.len();
    let mut best: Option<u32> = None;
    let mut i: usize = 0;
    while i < n
        invariant
            n == s@.len(),
            i <= n,
            runs_best(s@, 0) == opt_max(best, runs_best(s@, i as int)),
        decreases n - i,
    {
        if !is_ascii_digit_char(s[i]) {
            i = i + 1;
        } else {
            let len = ascii_digit_run_exec(s, i);
            let j = i + len;
            assert(ascii_digit_run(s@, i as int) == 1 + ascii_digit_run(s@, i + 1));
            proof {
                lemma_ascii_run_digits(s@, i as int);
            }
            if 3 <= len && len <= 4 {
                match parse_u32_range(s, i, j) {
                    Some(v) => {
                        if 240 <= v && v <= 2160 {
                            best = match best {
                                Some(b) => Some(if b >= v { b } else { v }),
                                None => Some(v),
                            };
                        }
                    },
                    None => {},
                }
                proof {
                    let d = s@.subrange(i as int, j as int);
                    assert(d.len() > 0 && d[0] != '+');
                    assert(text::digits_value(d) <= 9999) by {
                        text::lemma_digits_value_bound4(d);
                    }
                }
            }
            i = j;
        }
    }
    best
}

/// "1080p" → 1080, "720p" → 720, "640x480 x265 AAC" → 480,
/// "WEBRip 1080" → 1080. Returns `None` if no plausible number.
pub fn height_of_resolution(res: &str) -> (r: Option<u32>)
    ensures
        r == height_spec(res@),
{
    let s = chars_of(res);
    let n = s.len();
    if n > 0 && s[n - 1] == 'p' {
        let v = parse_u32_range(&s, 0, n - 1);
        assert(s@.subrange(0, n - 1) == s@.drop_last());
        if v.is_some() {
            return v;
        }
    }
    match first_x_exec(&s) {
        Some(i) => {
            let len = ascii_digit_run_exec(&s, i + 1);
            let h = parse_u32_range(&s, i + 1, i + 1 + len);
            if h.is_some() {
                return h;
            }
        },
        None => {},
    }
    runs_best_exec(&s)
}

} // verus!
