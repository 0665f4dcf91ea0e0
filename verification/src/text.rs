//! Character-level building blocks shared by every parser in the crate:
//! character classes, trimming, decimal parsing and formatting, and the
//! conversions between `String` and the `Vec<char>` the parsers work on.

use vstd::prelude::*;

verus! {

// ---------- character classes ----------

/// Unicode `White_Space`: what `char::is_whitespace`, `str::trim` and the
/// `\s` class of the `regex` crate test.
pub open spec fn is_white_space(c: char) -> bool {
    ||| ('\u{9}' <= c && c <= '\u{d}')
    ||| c == ' '
    ||| c == '\u{85}'
    ||| c == '\u{a0}'
    ||| c == '\u{1680}'
    ||| ('\u{2000}' <= c && c <= '\u{200a}')
    ||| c == '\u{2028}'
    ||| c == '\u{2029}'
    ||| c == '\u{202f}'
    ||| c == '\u{205f}'
    ||| c == '\u{3000}'
}

pub open spec fn is_ascii_digit(c: char) -> bool {
    '0' <= c && c <= '9'
}

pub open spec fn is_ascii_upper(c: char) -> bool {
    'A' <= c && c <= 'Z'
}

pub open spec fn is_ascii_lower(c: char) -> bool {
    'a' <= c && c <= 'z'
}

pub open spec fn is_ascii_alnum(c: char) -> bool {
    is_ascii_digit(c) || is_ascii_upper(c) || is_ascii_lower(c)
}

pub open spec fn is_hex_digit(c: char) -> bool {
    is_ascii_digit(c) || ('a' <= c && c <= 'f') || ('A' <= c && c <= 'F')
}

pub open spec fn is_lower_hex_digit(c: char) -> bool {
    is_ascii_digit(c) || ('a' <= c && c <= 'f')
}

pub open spec fn ascii_lower(c: char) -> char {
    if is_ascii_upper(c) {
        ((c as u32) + 32) as char
    } else {
        c
    }
}

pub open spec fn ascii_upper(c: char) -> char {
    if is_ascii_lower(c) {
        ((c as u32) - 32) as char
    } else {
        c
    }
}

pub open spec fn seq_ascii_lower(s: Seq<char>) -> Seq<char> {
    s.map_values(|c: char| ascii_lower(c))
}

pub open spec fn seq_ascii_upper(s: Seq<char>) -> Seq<char> {
    s.map_values(|c: char| ascii_upper(c))
}

pub open spec fn all_chars(s: Seq<char>, p: spec_fn(char) -> bool) -> bool {
    forall|i: int| 0 <= i < s.len() ==> #[trigger] p(s[i])
}

pub open spec fn no_char(s: Seq<char>, c: char) -> bool {
    forall|i: int| 0 <= i < s.len() ==> s[i] != c
}

/// `u32` value of an ASCII hex digit.
pub open spec fn hex_val(c: char) -> nat {
    if is_ascii_digit(c) {
        (c as u32 - '0' as u32) as nat
    } else if 'a' <= c && c <= 'f' {
        (c as u32 - 'a' as u32 + 10) as nat
    } else {
        (c as u32 - 'A' as u32 + 10) as nat
    }
}

/// Membership in the `\d` class of the `regex` crate (Unicode `Nd`).
pub uninterp spec fn regex_digit(c: char) -> bool;

/// `char::is_alphanumeric` (Unicode `Alphabetic` or `Numeric`) of a
/// character beyond ASCII.
pub uninterp spec fn non_ascii_alphanumeric(c: char) -> bool;

/// The characters `char::to_lowercase` yields for a character beyond
/// ASCII.
pub uninterp spec fn non_ascii_lowercase(c: char) -> Seq<char>;

/// `char::is_alphanumeric`: on ASCII, exactly the letters and digits.
pub open spec fn unicode_alphanumeric(c: char) -> bool {
    if (c as u32) < 128 {
        is_ascii_alnum(c)
    } else {
        non_ascii_alphanumeric(c)
    }
}

/// The characters `char::to_lowercase` yields: on ASCII, the one ASCII
/// lowercase character.
pub open spec fn unicode_lowercase(c: char) -> Seq<char> {
    if (c as u32) < 128 {
        seq![ascii_lower(c)]
    } else {
        non_ascii_lowercase(c)
    }
}

/// What `String::from_utf8_lossy` makes of a byte sequence.
pub uninterp spec fn utf8_lossy(b: Seq<u8>) -> Seq<char>;

/// What `format!("{:?}", s)` makes of a string.
pub uninterp spec fn debug_quoted(s: Seq<char>) -> Seq<char>;

/// What `str::to_lowercase` makes of a string.
pub uninterp spec fn lowercase_str(s: Seq<char>) -> Seq<char>;

// ---------- trusted bridges to std ----------

/// The characters of `s`, in order.
pub(crate) fn chars_of(s: &str) -> (r: Vec<char>)
    ensures
        r@ == s@,
{
    broadcast use vstd::string::axiom_spec_iter;
    let mut r: Vec<char> = Vec::new();
    for c in it: s.chars()
        invariant
            it.seq() == s@,
            r@ == s@.take(it.index() as int),
    {
        r.push(c);
    }
    assert(r@ =~= s@);
    r
}

/// Collects characters into a `String` (`FromIterator<char>`).
#[verifier::external_body]
pub(crate) fn string_of(v: &Vec<char>) -> (r: String)
    ensures
        r@ == v@,
{
    v.iter().collect()
}

/// Decides `\d` by asking the `regex` crate itself; ASCII digits are in
/// the class and no other ASCII character is.
#[verifier::external_body]
pub(crate) fn regex_is_digit(c: char) -> (r: bool)
    ensures
        r == regex_digit(c),
        is_ascii_digit(c) ==> r,
        ((c as u32) < 128 && !is_ascii_digit(c)) ==> !r,
{
    let mut buf = [0u8; 4];
    regex::Regex::new(r"^\d$").unwrap().is_match(c.encode_utf8(&mut buf))
}

/// `char::is_alphanumeric`; on ASCII it holds exactly of letters and digits.
#[verifier::external_body]
pub(crate) fn char_is_alphanumeric(c: char) -> (r: bool)
    ensures
        (c as u32) < 128 ==> (r == is_ascii_alnum(c)),
        (c as u32) >= 128 ==> (r == non_ascii_alphanumeric(c)),
{
    c.is_alphanumeric()
}

/// `char::to_lowercase`; an ASCII character maps to its ASCII lowercase.
#[verifier::external_body]
pub(crate) fn char_to_lowercase(c: char) -> (r: Vec<char>)
    ensures
        (c as u32) < 128 ==> r@ == seq![ascii_lower(c)],
        (c as u32) >= 128 ==> r@ == non_ascii_lowercase(c),
{
    c.to_lowercase().collect()
}

/// `String::from_utf8_lossy`: valid UTF-8 decodes to exactly its characters.
#[verifier::external_body]
pub(crate) fn string_from_utf8_lossy(b: &Vec<u8>) -> (r: String)
    ensures
        r@ == utf8_lossy(b@),
        vstd::utf8::valid_utf8(b@) ==> r@ == vstd::utf8::decode_utf8(b@),
{
    String::from_utf8_lossy(b).into_owned()
}

/// `String::from_utf8`: succeeds exactly on valid UTF-8.
#[verifier::external_body]
pub(crate) fn string_from_utf8(b: Vec<u8>) -> (r: Option<String>)
    ensures
        r is Some <==> vstd::utf8::valid_utf8(b@),
        r matches Some(s) ==> s@ == vstd::utf8::decode_utf8(b@),
{
    String::from_utf8(b).ok()
}

/// `str::to_lowercase` (Unicode lowercase mapping); on ASCII text it is
/// the ASCII lowercase.
#[verifier::external_body]
pub(crate) fn to_lowercase_str(s: &str) -> (r: String)
    ensures
        r@ == lowercase_str(s@),
        (forall|i: int| 0 <= i < s@.len() ==> (#[trigger] s@[i] as u32) < 128) ==> r@ == seq_ascii_lower(s@),
{
    s.to_lowercase()
}

/// `format!("{:?}", s)`: the string in double quotes with escapes.
#[verifier::external_body]
pub(crate) fn debug_quote(s: &str) -> (r: String)
    ensures
        r@ == debug_quoted(s@),
{
    format!("{:?}", s)
}

// ---------- small exec helpers ----------

pub fn is_white_space_char(c: char) -> (r: bool)
    ensures
        r == is_white_space(c),
{
    ('\u{9}' <= c && c <= '\u{d}') || c == ' ' || c == '\u{85}' || c == '\u{a0}' || c
        == '\u{1680}' || ('\u{2000}' <= c && c <= '\u{200a}') || c == '\u{2028}' || c
        == '\u{2029}' || c == '\u{202f}' || c == '\u{205f}' || c == '\u{3000}'
}

pub fn is_ascii_digit_char(c: char) -> (r: bool)
    ensures
        r == is_ascii_digit(c),
{
    '0' <= c && c <= '9'
}

pub fn is_ascii_alnum_char(c: char) -> (r: bool)
    ensures
        r == is_ascii_alnum(c),
{
    ('0' <= c && c <= '9') || ('A' <= c && c <= 'Z') || ('a' <= c && c <= 'z')
}

pub fn is_hex_digit_char(c: char) -> (r: bool)
    ensures
        r == is_hex_digit(c),
{
    ('0' <= c && c <= '9') || ('a' <= c && c <= 'f') || ('A' <= c && c <= 'F')
}

pub fn ascii_lower_char(c: char) -> (r: char)
    ensures
        r == ascii_lower(c),
{
    if 'A' <= c && c <= 'Z' {
        ((c as u8) + 32) as char
    } else {
        c
    }
}

pub fn ascii_upper_char(c: char) -> (r: char)
    ensures
        r == ascii_upper(c),
{
    if 'a' <= c && c <= 'z' {
        ((c as u8) - 32) as char
    } else {
        c
    }
}

/// `s[lo..hi]` as a fresh vector.
pub fn slice_chars(s: &Vec<char>, lo: usize, hi: usize) -> (r: Vec<char>)
    requires
        lo <= hi <= s@.len(),
    ensures
        r@ == s@.subrange(lo as int, hi as int),
{
    let mut r: Vec<char> = Vec::new();
    let mut i = lo;
    while i < hi
        invariant
            lo <= i <= hi <= s@.len(),
            r@ == s@.subrange(lo as int, i as int),
        decreases hi - i,
    {
        r.push(s[i]);
        i = i + 1;
    }
    r
}

/// Appends every character of `t` to `v`.
pub fn push_all(v: &mut Vec<char>, t: &Vec<char>)
    ensures
        final(v)@ == old(v)@ + t@,
{
    let mut i: usize = 0;
    while i < t.len()
        invariant
            i <= t@.len(),
            v@ == old(v)@ + t@.subrange(0, i as int),
        decreases t@.len() - i,
    {
        v.push(t[i]);
        i = i + 1;
        assert(t@.subrange(0, i as int) == t@.subrange(0, i - 1) + seq![t@[i - 1]]);
    }
    assert(t@.subrange(0, t@.len() as int) == t@);
}

/// `s` with every character in ASCII lowercase.
pub fn to_ascii_lowercase(s: &Vec<char>) -> (r: Vec<char>)
    ensures
        r@ == seq_ascii_lower(s@),
{
    let mut r: Vec<char> = Vec::new();
    let mut i: usize = 0;
    while i < s.len()
        invariant
            i <= s@.len(),
            r@ == seq_ascii_lower(s@.subrange(0, i as int)),
        decreases s@.len() - i,
    {
        r.push(ascii_lower_char(s[i]));
        i = i + 1;
        assert(seq_ascii_lower(s@.subrange(0, i as int)) == seq_ascii_lower(
            s@.subrange(0, i - 1),
        ).push(ascii_lower(s@[i - 1])));
    }
    assert(s@.subrange(0, s@.len() as int) == s@);
    r
}

/// `s` with every character in ASCII uppercase.
pub fn to_ascii_uppercase(s: &Vec<char>) -> (r: Vec<char>)
    ensures
        r@ == seq_ascii_upper(s@),
{
    let mut r: Vec<char> = Vec::new();
    let mut i: usize = 0;
    while i < s.len()
        invariant
            i <= s@.len(),
            r@ == seq_ascii_upper(s@.subrange(0, i as int)),
        decreases s@.len() - i,
    {
        r.push(ascii_upper_char(s[i]));
        i = i + 1;
        assert(seq_ascii_upper(s@.subrange(0, i as int)) == seq_ascii_upper(
            s@.subrange(0, i - 1),
        ).push(ascii_upper(s@[i - 1])));
    }
    assert(s@.subrange(0, s@.len() as int) == s@);
    r
}

// ---------- trimming ----------

/// Number of leading white-space characters of `s`.
pub open spec fn lead_ws(s: Seq<char>) -> nat
    decreases s.len(),
{
    if s.len() > 0 && is_white_space(s[0]) {
        1 + lead_ws(s.drop_first())
    } else {
        0
    }
}

/// Number of trailing white-space characters of `s`.
pub open spec fn trail_ws(s: Seq<char>) -> nat
    decreases s.len(),
{
    if s.len() > 0 && is_white_space(s.last()) {
        1 + trail_ws(s.drop_last())
    } else {
        0
    }
}

/// `str::trim`: `s` without leading and trailing white space.
pub open spec fn trim_spec(s: Seq<char>) -> Seq<char> {
    let t = s.skip(lead_ws(s) as int);
    t.take(t.len() - trail_ws(t))
}

pub proof fn lemma_lead_ws_bound(s: Seq<char>)
    ensures
        lead_ws(s) <= s.len(),
        forall|i: int| 0 <= i < lead_ws(s) ==> is_white_space(#[trigger] s[i]),
        lead_ws(s) < s.len() ==> !is_white_space(s[lead_ws(s) as int]),
    decreases s.len(),
{
    if s.len() > 0 && is_white_space(s[0]) {
        lemma_lead_ws_bound(s.drop_first());
        assert forall|i: int| 0 <= i < lead_ws(s) implies is_white_space(#[trigger] s[i]) by {
            if i > 0 {
                assert(s[i] == s.drop_first()[i - 1]);
            }
        }
    }
}

pub proof fn lemma_trail_ws_bound(s: Seq<char>)
    ensures
        trail_ws(s) <= s.len(),
        forall|i: int| s.len() - trail_ws(s) <= i < s.len() ==> is_white_space(#[trigger] s[i]),
        trail_ws(s) < s.len() ==> !is_white_space(s[s.len() - trail_ws(s) - 1]),
    decreases s.len(),
{
    if s.len() > 0 && is_white_space(s.last()) {
        lemma_trail_ws_bound(s.drop_last());
        assert forall|i: int|
            s.len() - trail_ws(s) <= i < s.len() implies is_white_space(#[trigger] s[i]) by {
            if i < s.len() - 1 {
                assert(s[i] == s.drop_last()[i]);
            }
        }
    }
}

/// Characterises `lead_ws` by its defining properties.
pub proof fn lemma_lead_ws_unique(s: Seq<char>, k: int)
    requires
        0 <= k <= s.len(),
        forall|i: int| 0 <= i < k ==> is_white_space(#[trigger] s[i]),
        k < s.len() ==> !is_white_space(s[k]),
    ensures
        lead_ws(s) == k,
    decreases s.len(),
{
    if k > 0 {
        assert forall|i: int| 0 <= i < k - 1 implies is_white_space(#[trigger] s.drop_first()[i]) by {
            assert(s.drop_first()[i] == s[i + 1]);
        }
        if k < s.len() {
            assert(s.drop_first()[k - 1] == s[k]);
        }
        lemma_lead_ws_unique(s.drop_first(), k - 1);
    }
}

/// Characterises `trail_ws` by its defining properties.
pub proof fn lemma_trail_ws_unique(s: Seq<char>, k: int)
    requires
        0 <= k <= s.len(),
        forall|i: int| s.len() - k <= i < s.len() ==> is_white_space(#[trigger] s[i]),
        k < s.len() ==> !is_white_space(s[s.len() - k - 1]),
    ensures
        trail_ws(s) == k,
    decreases s.len(),
{
    if k > 0 {
        let d = s.drop_last();
        assert forall|i: int| d.len() - (k - 1) <= i < d.len() implies is_white_space(#[trigger] d[i]) by {
            assert(d[i] == s[i]);
        }
        if k < s.len() {
            assert(d[d.len() - (k - 1) - 1] == s[s.len() - k - 1]);
        }
        lemma_trail_ws_unique(d, k - 1);
    }
}

/// `str::trim` on the characters `s[lo..hi]`.
pub fn trim_range(s: &Vec<char>, lo: usize, hi: usize) -> (r: Vec<char>)
    requires
        lo <= hi <= s@.len(),
    ensures
        r@ == trim_spec(s@.subrange(lo as int, hi as int)),
{
    let ghost sub = s@.subrange(lo as int, hi as int);
    let mut a = lo;
    while a < hi && is_white_space_char(s[a])
        invariant
            lo <= a <= hi <= s@.len(),
            sub == s@.subrange(lo as int, hi as int),
            forall|i: int| lo <= i < a ==> is_white_space(#[trigger] s@[i]),
        decreases hi - a,
    {
        a = a + 1;
    }
    proof {
        assert forall|i: int| 0 <= i < a - lo implies is_white_space(#[trigger] sub[i]) by {
            assert(sub[i] == s@[lo + i]);
        }
        if a < hi {
            assert(sub[a - lo] == s@[a as int]);
        }
        lemma_lead_ws_unique(sub, a - lo);
    }
    let mut b = hi;
    while b > a && is_white_space_char(s[b - 1])
        invariant
            lo <= a <= b <= hi <= s@.len(),
            forall|i: int| b <= i < hi ==> is_white_space(#[trigger] s@[i]),
        decreases b - a,
    {
        b = b - 1;
    }
    proof {
        let t = sub.skip(lead_ws(sub) as int);
        assert(t == s@.subrange(a as int, hi as int));
        assert forall|i: int| t.len() - (hi - b) <= i < t.len() implies is_white_space(#[trigger] t[i]) by {
            assert(t[i] == s@[a + i]);
        }
        if hi - b < t.len() {
            assert(t[t.len() - (hi - b) - 1] == s@[b - 1]);
        }
        lemma_trail_ws_unique(t, hi - b);
        assert(t.take(t.len() - trail_ws(t)) == s@.subrange(a as int, b as int));
    }
    slice_chars(s, a, b)
}

/// `str::trim` on a whole character vector.
pub fn trim(s: &Vec<char>) -> (r: Vec<char>)
    ensures
        r@ == trim_spec(s@),
{
    let r = trim_range(s, 0, s.len());
    assert(s@.subrange(0, s@.len() as int) == s@);
    r
}

// ---------- decimal numbers ----------

/// Value of a sequence of ASCII digits.
pub open spec fn digits_value(s: Seq<char>) -> nat
    decreases s.len(),
{
    if s.len() == 0 {
        0
    } else {
        digits_value(s.drop_last()) * 10 + (s.last() as u32 - '0' as u32) as nat
    }
}

pub open spec fn all_ascii_digits(s: Seq<char>) -> bool {
    forall|i: int| 0 <= i < s.len() ==> is_ascii_digit(#[trigger] s[i])
}

/// `str::parse::<u32>`: an optional `+`, then one or more ASCII digits
/// whose value fits in a `u32`.
pub open spec fn parse_u32_spec(s: Seq<char>) -> Option<u32> {
    let d = if s.len() > 0 && s[0] == '+' {
        s.drop_first()
    } else {
        s
    };
    if d.len() > 0 && all_ascii_digits(d) && digits_value(d) <= u32::MAX {
        Some(digits_value(d) as u32)
    } else {
        None
    }
}

pub proof fn lemma_digits_value_prefix(s: Seq<char>, i: int)
    requires
        0 <= i <= s.len(),
        all_ascii_digits(s),
    ensures
        digits_value(s.take(i)) <= digits_value(s),
    decreases s.len() - i,
{
    if i < s.len() {
        lemma_digits_value_prefix(s, i + 1);
        assert(s.take(i + 1).drop_last() == s.take(i));
        assert(is_ascii_digit(s[i]));
    } else {
        assert(s.take(i) == s);
    }
}

pub open spec fn pow10(n: nat) -> nat
    decreases n,
{
    if n == 0 {
        1
    } else {
        10 * pow10((n - 1) as nat)
    }
}

pub proof fn lemma_digits_value_lt_pow10(s: Seq<char>)
    requires
        all_ascii_digits(s),
    ensures
        digits_value(s) < pow10(s.len()),
    decreases s.len(),
{
    if s.len() > 0 {
        assert(all_ascii_digits(s.drop_last()));
        lemma_digits_value_lt_pow10(s.drop_last());
        assert(is_ascii_digit(s[s.len() - 1]));
    }
}

pub proof fn lemma_digits_value_bound4(s: Seq<char>)
    requires
        all_ascii_digits(s),
        s.len() <= 4,
    ensures
        digits_value(s) <= 9999,
{
    lemma_digits_value_lt_pow10(s);
    reveal_with_fuel(pow10, 5);
}

/// `s[lo..hi].parse::<u32>()`.
pub fn parse_u32_range(s: &Vec<char>, lo: usize, hi: usize) -> (r: Option<u32>)
    requires
        lo <= hi <= s@.len(),
    ensures
        r == parse_u32_spec(s@.subrange(lo as int, hi as int)),
{
    let ghost sub = s@.subrange(lo as int, hi as int);
    let mut start = lo;
    if lo < hi && s[lo] == '+' {
        start = lo + 1;
    }
    let ghost d = s@.subrange(start as int, hi as int);
    assert(d == (if sub.len() > 0 && sub[0] == '+' { sub.drop_first() } else { sub }));
    if start == hi {
        return None;
    }
    let mut acc: u64 = 0;
    let mut i = start;
    while i < hi
        invariant
            lo <= start <= i <= hi <= s@.len(),
            sub == s@.subrange(lo as int, hi as int),
            d == s@.subrange(start as int, hi as int),
            d == (if sub.len() > 0 && sub[0] == '+' { sub.drop_first() } else { sub }),
            all_ascii_digits(s@.subrange(start as int, i as int)),
            acc == digits_value(s@.subrange(start as int, i as int)),
            acc <= u32::MAX,
        decreases hi - i,
    {
        let c = s[i];
        if !is_ascii_digit_char(c) {
            assert(d[i - start] == c);
            return None;
        }
        let ghost prev = s@.subrange(start as int, i as int);
        acc = acc * 10 + ((c as u32) - ('0' as u32)) as u64;
        i = i + 1;
        assert(s@.subrange(start as int, i as int).drop_last() == prev);
        if acc > 0xFFFF_FFFF {
            proof {
                let cur = s@.subrange(start as int, i as int);
                if all_ascii_digits(d) {
                    assert(d.take(i - start) == cur);
                    lemma_digits_value_prefix(d, i - start);
                }
            }
            return None;
        }
    }
    assert(s@.subrange(start as int, hi as int) == d);
    Some(acc as u32)
}

pub open spec fn digit_char(n: nat) -> char
    recommends
        n < 10,
{
    (('0' as u32) + n) as char
}

/// Decimal representation of `n`, without leading zeros.
pub open spec fn decimal(n: nat) -> Seq<char>
    decreases n,
{
    if n < 10 {
        seq![digit_char(n)]
    } else {
        decimal(n / 10).push(digit_char(n % 10))
    }
}

/// `s` left-padded with `'0'` to at least `w` characters (`{:0w}`).
pub open spec fn zero_pad(s: Seq<char>, w: nat) -> Seq<char> {
    if s.len() >= w {
        s
    } else {
        Seq::new((w - s.len()) as nat, |i: int| '0') + s
    }
}

pub proof fn lemma_decimal_len(n: nat)
    ensures
        decimal(n).len() >= 1,
        n < 10 ==> decimal(n).len() == 1,
        10 <= n < 100 ==> decimal(n).len() == 2,
        decimal(n).len() <= 1 + n,
    decreases n,
{
    if n >= 10 {
        lemma_decimal_len(n / 10);
    }
}

/// `n.to_string()` as characters.
pub fn fmt_u32(n: u32) -> (r: Vec<char>)
    ensures
        r@ == decimal(n as nat),
    decreases n,
{
    if n < 10 {
        let mut r: Vec<char> = Vec::new();
        r.push((((n as u8) + 48u8) as char));
        r
    } else {
        let mut r = fmt_u32(n / 10);
        r.push(((((n % 10) as u8) + 48u8) as char));
        r
    }
}

/// `n.to_string()` as characters.
pub fn fmt_usize(n: usize) -> (r: Vec<char>)
    ensures
        r@ == decimal(n as nat),
    decreases n,
{
    if n < 10 {
        let mut r: Vec<char> = Vec::new();
        r.push((((n as u8) + 48u8) as char));
        r
    } else {
        let mut r = fmt_usize(n / 10);
        r.push(((((n % 10) as u8) + 48u8) as char));
        r
    }
}

/// `format!("{:0w$}", n)` as characters.
pub fn fmt_u32_padded(n: u32, w: usize) -> (r: Vec<char>)
    ensures
        r@ == zero_pad(decimal(n as nat), w as nat),
{
    let d = fmt_u32(n);
    if d.len() >= w {
        return d;
    }
    let mut r: Vec<char> = Vec::new();
    let k = w - d.len();
    let mut i: usize = 0;
    while i < k
        invariant
            i <= k,
            r@ == Seq::new(i as nat, |j: int| '0'),
        decreases k - i,
    {
        r.push('0');
        i = i + 1;
        assert(r@ == Seq::new(i as nat, |j: int| '0'));
    }
    push_all(&mut r, &d);
    r
}

// ---------- searching ----------

/// `t` occurs in `s` at position `i`.
pub open spec fn occurs_at(s: Seq<char>, t: Seq<char>, i: int) -> bool {
    0 <= i && i + t.len() <= s.len() && s.subrange(i, i + t.len()) == t
}

/// `str::contains` with a string pattern.
pub open spec fn contains_seq(s: Seq<char>, t: Seq<char>) -> bool {
    exists|i: int| occurs_at(s, t, i)
}

/// Whether `t` occurs in `s` at position `i`.
pub fn occurs_at_exec(s: &Vec<char>, t: &Vec<char>, i: usize) -> (r: bool)
    ensures
        r == occurs_at(s@, t@, i as int),
{
    let n = s.len();
    if i > n || t.len() > n - i {
        return false;
    }
    let mut k: usize = 0;
    while k < t.len()
        invariant
            n == s@.len(),
            i + t@.len() <= s@.len(),
            k <= t@.len(),
            forall|j: int| 0 <= j < k ==> s@[i + j] == t@[j],
        decreases t@.len() - k,
    {
        if s[i + k] != t[k] {
            assert(s@.subrange(i as int, i + t@.len())[k as int] == s@[i + k]);
            return false;
        }
        k = k + 1;
    }
    assert(s@.subrange(i as int, i + t@.len()) == t@);
    true
}

/// `s.contains(t)`.
pub fn contains_chars(s: &Vec<char>, t: &Vec<char>) -> (r: bool)
    ensures
        r == contains_seq(s@, t@),
{
    let n = s.len();
    if t.len() > n {
        return false;
    }
    if t.len() == 0 {
        assert(s@.subrange(0, 0) == t@);
        assert(occurs_at(s@, t@, 0));
        return true;
    }
    let mut i: usize = 0;
    while i <= n - t.len()
        invariant
            n == s@.len(),
            1 <= t@.len() <= s@.len(),
            i <= s@.len() - t@.len() + 1,
            forall|j: int| 0 <= j < i ==> !occurs_at(s@, t@, j),
        decreases s@.len() - t@.len() + 1 - i,
    {
        if occurs_at_exec(s, t, i) {
            return true;
        }
        i = i + 1;
    }
    assert forall|j: int| !occurs_at(s@, t@, j) by {
        if 0 <= j && j + t@.len() <= s@.len() {
            assert(j < i);
        }
    }
    false
}

/// Whether two character vectors are equal.
pub fn chars_eq(a: &Vec<char>, b: &Vec<char>) -> (r: bool)
    ensures
        r == (a@ == b@),
{
    if a.len() != b.len() {
        return false;
    }
    let mut i: usize = 0;
    while i < a.len()
        invariant
            a@.len() == b@.len(),
            i <= a@.len(),
            forall|j: int| 0 <= j < i ==> a@[j] == b@[j],
        decreases a@.len() - i,
    {
        if a[i] != b[i] {
            return false;
        }
        i = i + 1;
    }
    assert(a@ == b@);
    true
}

/// Whether a string equals a character vector.
pub fn str_eq_chars(a: &str, b: &Vec<char>) -> (r: bool)
    ensures
        r == (a@ == b@),
{
    let av = chars_of(a);
    chars_eq(&av, b)
}

// ---------- splitting ----------

/// `str::split` on a single character (empty pieces kept).
pub open spec fn split_on(s: Seq<char>, sep: char) -> Seq<Seq<char>>
    decreases s.len(),
{
    if s.len() == 0 {
        seq![seq![]]
    } else {
        let prev = split_on(s.drop_last(), sep);
        if s.last() == sep {
            prev.push(seq![])
        } else {
            prev.update(prev.len() - 1, prev.last().push(s.last()))
        }
    }
}

pub proof fn lemma_split_on_nonempty(s: Seq<char>, sep: char)
    ensures
        split_on(s, sep).len() >= 1,
    decreases s.len(),
{
    if s.len() > 0 {
        lemma_split_on_nonempty(s.drop_last(), sep);
    }
}

pub open spec fn views(v: Seq<Vec<char>>) -> Seq<Seq<char>> {
    v.map_values(|x: Vec<char>| x@)
}

/// `s.split(sep)`, each piece as a character vector.
pub fn split_on_exec(s: &Vec<char>, sep: char) -> (r: Vec<Vec<char>>)
    ensures
        views(r@) == split_on(s@, sep),
        r@.len() >= 1,
{
    let mut r: Vec<Vec<char>> = Vec::new();
    r.push(Vec::new());
    let mut cur: Vec<char> = Vec::new();
    let mut i: usize = 0;
    assert(views(r@) == seq![Seq::<char>::empty()]);
    while i < s.len()
        invariant
            i <= s@.len(),
            r@.len() >= 1,
            r@.last()@ == cur@,
            views(r@) == split_on(s@.subrange(0, i as int), sep),
        decreases s@.len() - i,
    {
        let c = s[i];
        let ghost prev = views(r@);
        proof {
            lemma_split_on_nonempty(s@.subrange(0, i as int), sep);
            assert(s@.subrange(0, i + 1).drop_last() == s@.subrange(0, i as int));
        }
        if c == sep {
            r.push(Vec::new());
            cur = Vec::new();
            assert(views(r@) =~= prev.push(seq![]));
        } else {
            let last = r.len() - 1;
            cur.push(c);
            let mut tmp: Vec<char> = Vec::new();
            push_all(&mut tmp, &cur);
            r.set(last, tmp);
            assert(views(r@) =~= prev.update(prev.len() - 1, prev.last().push(c)));
        }
        i = i + 1;
    }
    assert(s@.subrange(0, s@.len() as int) == s@);
    r
}

/// Index of the first occurrence of `c` in `s`.
pub open spec fn first_index(s: Seq<char>, c: char) -> Option<int>
    decreases s.len(),
{
    if s.len() == 0 {
        None
    } else if s[0] == c {
        Some(0)
    } else {
        match first_index(s.drop_first(), c) {
            Some(i) => Some(i + 1),
            None => None,
        }
    }
}

pub proof fn lemma_first_index(s: Seq<char>, c: char)
    ensures
        match first_index(s, c) {
            Some(i) => 0 <= i < s.len() && s[i] == c && no_char(s.take(i), c),
            None => no_char(s, c),
        },
    decreases s.len(),
{
    if s.len() > 0 && s[0] != c {
        lemma_first_index(s.drop_first(), c);
        match first_index(s.drop_first(), c) {
            Some(i) => {
                assert forall|k: int| 0 <= k < i + 1 implies #[trigger] s.take(i + 1)[k] != c by {
                    if k > 0 {
                        assert(s.take(i + 1)[k] == s.drop_first().take(i)[k - 1]);
                    }
                }
            },
            None => {
                assert forall|k: int| 0 <= k < s.len() implies s[k] != c by {
                    if k > 0 {
                        assert(s[k] == s.drop_first()[k - 1]);
                    }
                }
            },
        }
    }
}

/// Characterises `first_index` by its defining properties.
pub proof fn lemma_first_index_unique(s: Seq<char>, c: char, i: int)
    requires
        0 <= i <= s.len(),
        forall|k: int| 0 <= k < i ==> s[k] != c,
        i < s.len() ==> s[i] == c,
    ensures
        first_index(s, c) == (if i < s.len() { Some(i) } else { None::<int> }),
    decreases s.len(),
{
    if s.len() > 0 && i > 0 {
        assert forall|k: int| 0 <= k < i - 1 implies s.drop_first()[k] != c by {
            assert(s.drop_first()[k] == s[k + 1]);
        }
        lemma_first_index_unique(s.drop_first(), c, i - 1);
    }
}

/// `s.find(c)` as a character index.
pub fn first_index_exec(s: &Vec<char>, c: char) -> (r: Option<usize>)
    ensures
        match r {
            Some(i) => first_index(s@, c) == Some(i as int) && i < s@.len(),
            None => first_index(s@, c) is None,
        },
{
    let mut i: usize = 0;
    while i < s.len()
        invariant
            i <= s@.len(),
            forall|k: int| 0 <= k < i ==> s@[k] != c,
        decreases s@.len() - i,
    {
        if s[i] == c {
            proof {
                lemma_first_index_unique(s@, c, i as int);
            }
            return Some(i);
        }
        i = i + 1;
    }
    proof {
        lemma_first_index_unique(s@, c, i as int);
    }
    None
}

/// Whether `s` starts with `t`.
pub open spec fn has_prefix(s: Seq<char>, t: Seq<char>) -> bool {
    t.len() <= s.len() && s.subrange(0, t.len() as int) == t
}

/// Whether `s` starts with `t`.
pub fn has_prefix_exec(s: &Vec<char>, t: &Vec<char>) -> (r: bool)
    ensures
        r == has_prefix(s@, t@),
{
    let r = occurs_at_exec(s, t, 0);
    r
}

/// Appends the characters of `s`.
pub fn push_str(out: &mut Vec<char>, s: &str)
    ensures
        final(out)@ == old(out)@ + s@,
{
    let v = chars_of(s);
    push_all(out, &v);
}

/// The ASCII white space of `regex-lite`'s `\s`: tab, line feed,
/// vertical tab, form feed, carriage return and space.
pub open spec fn is_ascii_ws(c: char) -> bool {
    c == ' ' || ('\u{9}' <= c && c <= '\u{d}')
}

pub fn is_ascii_ws_char(c: char) -> (r: bool)
    ensures
        r == is_ascii_ws(c),
{
    c == ' ' || ('\u{9}' <= c && c <= '\u{d}')
}

/// Length of the longest suffix of `s` whose characters all satisfy `p`.
pub open spec fn trail_run(s: Seq<char>, p: spec_fn(char) -> bool) -> nat
    decreases s.len(),
{
    if s.len() > 0 && p(s.last()) {
        1 + trail_run(s.drop_last(), p)
    } else {
        0
    }
}

pub proof fn lemma_trail_run_bound(s: Seq<char>, p: spec_fn(char) -> bool)
    ensures
        trail_run(s, p) <= s.len(),
        forall|i: int| s.len() - trail_run(s, p) <= i < s.len() ==> #[trigger] p(s[i]),
        trail_run(s, p) < s.len() ==> !p(s[s.len() - trail_run(s, p) - 1]),
    decreases s.len(),
{
    if s.len() > 0 && p(s.last()) {
        lemma_trail_run_bound(s.drop_last(), p);
        assert forall|i: int| s.len() - trail_run(s, p) <= i < s.len() implies #[trigger] p(s[i]) by {
            if i < s.len() - 1 {
                assert(s[i] == s.drop_last()[i]);
            }
        }
        if trail_run(s, p) < s.len() {
            assert(s[s.len() - trail_run(s, p) - 1] == s.drop_last()[s.drop_last().len() - trail_run(s.drop_last(), p) - 1]);
        }
    }
}

/// A suffix of length `k` of characters satisfying `p`, preceded by one
/// that does not (or by nothing), is the whole trailing run.
pub proof fn lemma_trail_run_unique(s: Seq<char>, p: spec_fn(char) -> bool, k: int)
    requires
        0 <= k <= s.len(),
        forall|i: int| s.len() - k <= i < s.len() ==> #[trigger] p(s[i]),
        k < s.len() ==> !p(s[s.len() - k - 1]),
    ensures
        trail_run(s, p) == k,
    decreases s.len(),
{
    if k > 0 {
        assert(p(s[s.len() - 1]));
        assert forall|i: int| s.drop_last().len() - (k - 1) <= i < s.drop_last().len() implies #[trigger] p(s.drop_last()[i]) by {
            assert(s.drop_last()[i] == s[i]);
        }
        if k - 1 < s.drop_last().len() {
            assert(s.drop_last()[s.drop_last().len() - (k - 1) - 1] == s[s.len() - k - 1]);
        }
        lemma_trail_run_unique(s.drop_last(), p, k - 1);
    }
}

/// A suffix of length `k` of characters satisfying `p` lies within the
/// trailing run.
pub proof fn lemma_trail_run_at_least(s: Seq<char>, p: spec_fn(char) -> bool, k: int)
    requires
        0 <= k <= s.len(),
        forall|i: int| s.len() - k <= i < s.len() ==> #[trigger] p(s[i]),
    ensures
        trail_run(s, p) >= k,
    decreases s.len(),
{
    if k > 0 {
        assert(p(s[s.len() - 1]));
        assert forall|i: int| s.drop_last().len() - (k - 1) <= i < s.drop_last().len() implies #[trigger] p(s.drop_last()[i]) by {
            assert(s.drop_last()[i] == s[i]);
        }
        lemma_trail_run_at_least(s.drop_last(), p, k - 1);
    }
}

/// First position at or after `i` where `t` occurs in `s`.
pub open spec fn first_occ(s: Seq<char>, t: Seq<char>, i: int) -> Option<int>
    decreases s.len() + 1 - i,
{
    if i < 0 || i > s.len() || i + t.len() > s.len() {
        None
    } else if occurs_at(s, t, i) {
        Some(i)
    } else {
        first_occ(s, t, i + 1)
    }
}

pub proof fn lemma_first_occ(s: Seq<char>, t: Seq<char>, i: int)
    requires
        0 <= i,
    ensures
        match first_occ(s, t, i) {
            Some(k) => i <= k && occurs_at(s, t, k) && forall|j: int| i <= j < k ==> !occurs_at(s, t, j),
            None => forall|j: int| i <= j ==> !occurs_at(s, t, j),
        },
    decreases s.len() + 1 - i,
{
    if i > s.len() || i + t.len() > s.len() {
    } else if occurs_at(s, t, i) {
    } else {
        lemma_first_occ(s, t, i + 1);
    }
}

/// `s[i..].find(t)`, as a position in `s`.
pub fn first_occ_exec(s: &Vec<char>, t: &Vec<char>, i: usize) -> (r: Option<usize>)
    ensures
        match r {
            Some(k) => first_occ(s@, t@, i as int) == Some(k as int),
            None => first_occ(s@, t@, i as int) is None,
        },
{
    let n = s.len();
    if i > n {
        return None;
    }
    if t.len() == 0 {
        assert(s@.subrange(i as int, i as int) == t@);
        return Some(i);
    }
    let mut k = i;
    while k <= n && t.len() <= n - k
        invariant
            n == s@.len(),
            i <= k,
            t@.len() >= 1,
            first_occ(s@, t@, i as int) == first_occ(s@, t@, k as int),
        decreases n + 1 - k,
    {
        if occurs_at_exec(s, t, k) {
            return Some(k);
        }
        k = k + 1;
    }
    None
}

} // verus!
