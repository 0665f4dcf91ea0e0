//! The computing half of the qBittorrent Web API client: form encoding of
//! request bodies, the `SID` session cookie, and judging an add request's
//! reply. The HTTP exchange itself lives with the application.

use vstd::prelude::*;
use vstd::utf8::{encode_utf8, valid_utf8, decode_utf8};

use crate::dl::{self, decode_bytes};
use crate::json::{self, Json, JsonView, json_of, member, member_value, parse_json};
use crate::text::{self, chars_of, string_of, push_all, push_str, split_on_exec, trim, slice_chars,
    to_ascii_lowercase, chars_eq};

verus! {

/// One torrent as qBittorrent lists it.
pub struct Torrent {
    pub name: String,
    pub category: String,
    pub state: String,
}

/// A torrent's field in the `torrents/info` listing: the member's text
/// when it is a string, else empty.
pub open spec fn torrent_field(v: JsonView, k: Seq<char>) -> Seq<char> {
    match member(v, k) {
        Some(JsonView::Str(t)) => t,
        _ => seq![],
    }
}

fn text_member(v: &Json, k: &str) -> (r: String)
    ensures
        r@ == torrent_field(v@, k@),
{
    match member_value(v, k) {
        Some(Json::Str(t)) => t.clone(),
        _ => String::new(),
    }
}

/// The torrents listed in a parsed `torrents/info` reply: `None` unless
/// it is a JSON array; else, element by element, the `name`, `category`
/// and `state` strings (empty when missing or not a string).
pub open spec fn torrents_listed(v: JsonView, ts: Option<Seq<Torrent>>) -> bool {
    match v {
        JsonView::Array(a) => ts matches Some(ts) && ts.len() == a.len() && forall|i: int|
            0 <= i < a.len() ==> #[trigger] ts[i].name@ == torrent_field(a[i], "name"@)
                && ts[i].category@ == torrent_field(a[i], "category"@) && ts[i].state@
                == torrent_field(a[i], "state"@),
        _ => ts is None,
    }
}

/// The torrents of a parsed `torrents/info` reply (see `torrents_listed`).
pub fn torrents_of_json(v: &Json) -> (r: Option<Vec<Torrent>>)
    ensures
        torrents_listed(v@, match r {
            Some(ts) => Some(ts@),
            None => None,
        }),
{
    proof {
        reveal_strlit("name");
        reveal_strlit("category");
        reveal_strlit("state");
    }
    match v {
        Json::Array(a) => {
            proof {
                json::lemma_json_views(a@);
            }
            let ghost vs = json::json_views(a@);
            let mut out: Vec<Torrent> = Vec::new();
            let mut i: usize = 0;
            while i < a.len()
                invariant
                    i <= a@.len(),
                    vs == json::json_views(a@),
                    vs.len() == a@.len(),
                    forall|t: int| 0 <= t < a@.len() ==> #[trigger] vs[t] == json::json_view(a@[t]),
                    out@.len() == i,
                    forall|t: int|
                        0 <= t < i ==> #[trigger] out@[t].name@ == torrent_field(vs[t], "name"@)
                            && out@[t].category@ == torrent_field(vs[t], "category"@) && out@[t].state@
                            == torrent_field(vs[t], "state"@),
                decreases a@.len() - i,
            {
                let e = &a[i];
                out.push(
                    Torrent {
                        name: text_member(e, "name"),
                        category: text_member(e, "category"),
                        state: text_member(e, "state"),
                    },
                );
                i = i + 1;
            }
            Some(out)
        },
        _ => None,
    }
}

/// The torrents of a `torrents/info` reply body: `None` unless it parses
/// as JSON, else `torrents_of_json` of what it parses to.
pub fn torrents_from_json(body: &str) -> (r: Option<Vec<Torrent>>)
    ensures
        match json_of(body@) {
            Some(v) => torrents_listed(v, match r {
                Some(ts) => Some(ts@),
                None => None,
            }),
            None => r is None,
        },
{
    match parse_json(body) {
        Some(v) => torrents_of_json(&v),
        None => None,
    }
}

/// The names of the listed torrents, in order.
pub fn torrent_names(ts: &Vec<Torrent>) -> (r: Vec<String>)
    ensures
        r@.len() == ts@.len(),
        forall|i: int| 0 <= i < ts@.len() ==> #[trigger] r@[i]@ == ts@[i].name@,
{
    let mut r: Vec<String> = Vec::new();
    let mut i: usize = 0;
    while i < ts.len()
        invariant
            i <= ts@.len(),
            r@.len() == i,
            forall|j: int| 0 <= j < i ==> #[trigger] r@[j]@ == ts@[j].name@,
        decreases ts@.len() - i,
    {
        r.push(ts[i].name.clone());
        i = i + 1;
    }
    r
}

// ---------- form encoding ----------

/// Bytes that `urlencode` passes through unchanged: `A-Z a-z 0-9 - _ . ~`.
pub open spec fn unreserved(b: u8) -> bool {
    (0x41 <= b <= 0x5A) || (0x61 <= b <= 0x7A) || (0x30 <= b <= 0x39) || b == 0x2D || b == 0x5F
        || b == 0x2E || b == 0x7E
}

/// Uppercase hex digit of a nibble.
pub open spec fn hex_upper(n: nat) -> char {
    if n < 10 {
        (('0' as u32) + n) as char
    } else {
        (('A' as u32) + n - 10) as char
    }
}

/// How one byte is written.
pub open spec fn encode_byte(b: u8) -> Seq<char> {
    if b == 0x20 {
        seq!['+']
    } else if unreserved(b) {
        seq![b as char]
    } else {
        seq!['%', hex_upper((b / 16) as nat), hex_upper((b % 16) as nat)]
    }
}

/// `application/x-www-form-urlencoded` encoding of a byte sequence.
pub open spec fn urlencode_spec(b: Seq<u8>) -> Seq<char>
    decreases b.len(),
{
    if b.len() == 0 {
        seq![]
    } else {
        encode_byte(b[0]) + urlencode_spec(b.skip(1))
    }
}

fn hex_upper_exec(n: u8) -> (r: char)
    requires
        n < 16,
    ensures
        r == hex_upper(n as nat),
{
    if n < 10 {
        (n + 48u8) as char
    } else {
        (n - 10 + 65u8) as char
    }
}

/// Minimal percent-encode for form values: space → `+`, anything not in
/// the unreserved set → `%XX` (uppercase), over the UTF-8 bytes of `input`.
pub fn urlencode(input: &str) -> (r: String)
    ensures
        r@ == urlencode_spec(encode_utf8(input@)),
{
    let bytes = input.as_bytes();
    let n = bytes.len();
    let mut out: Vec<char> = Vec::new();
    let mut i: usize = 0;
    assert(bytes@.skip(0) == bytes@);
    while i < n
        invariant
            n == bytes@.len(),
            bytes@ == encode_utf8(input@),
            i <= n,
            urlencode_spec(bytes@) == out@ + urlencode_spec(bytes@.skip(i as int)),
        decreases n - i,
    {
        let b = bytes[i];
        let ghost t = bytes@.skip(i as int);
        assert(t[0] == b);
        assert(t.skip(1) == bytes@.skip(i + 1));
        if b == 0x20 {
            out.push('+');
        } else if (0x41 <= b && b <= 0x5A) || (0x61 <= b && b <= 0x7A) || (0x30 <= b && b <= 0x39)
            || b == 0x2D || b == 0x5F || b == 0x2E || b == 0x7E {
            out.push(b as char);
        } else {
            out.push('%');
            out.push(hex_upper_exec(b / 16));
            out.push(hex_upper_exec(b % 16));
        }
        i = i + 1;
    }
    assert(bytes@.skip(n as int).len() == 0);
    string_of(&out)
}

proof fn lemma_decode_token(b: u8, rest: Seq<char>)
    ensures
        decode_bytes(encode_byte(b) + rest) == seq![b] + decode_bytes(rest),
{
    let tok = encode_byte(b);
    let s = tok + rest;
    if b == 0x20 {
        assert(s[0] == '+');
        assert(s.skip(1) == rest);
    } else if unreserved(b) {
        let c = b as char;
        assert(s[0] == c);
        assert(s.skip(1) == rest);
        assert(c != '+' && c != '%');
        assert(encode_utf8(seq![c]) == vstd::utf8::encode_scalar(c as u32) + encode_utf8(
            seq![c].drop_first(),
        ));
        assert(seq![c].drop_first().len() == 0);
        assert(encode_utf8(seq![c].drop_first()) == Seq::<u8>::empty());
        assert((b as char) as u32 == b as u32);
        let v = b as u32;
        assert((v & 0x7F) as u8 == b) by (bit_vector)
            requires
                v == b as u32,
                b < 128,
        ;
        assert(vstd::utf8::encode_scalar(c as u32) == seq![b]);
    } else {
        let hi = hex_upper((b / 16) as nat);
        let lo = hex_upper((b % 16) as nat);
        assert(s[0] == '%' && s[1] == hi && s[2] == lo);
        assert(s.skip(3) == rest);
        assert(text::is_hex_digit(hi) && text::is_hex_digit(lo));
        assert(text::hex_val(hi) == (b / 16) as nat);
        assert(text::hex_val(lo) == (b % 16) as nat);
    }
}

proof fn lemma_decode_encode_bytes(b: Seq<u8>)
    ensures
        decode_bytes(urlencode_spec(b)) == b,
    decreases b.len(),
{
    if b.len() == 0 {
        assert(urlencode_spec(b) == Seq::<char>::empty());
    } else {
        lemma_decode_encode_bytes(b.skip(1));
        lemma_decode_token(b[0], urlencode_spec(b.skip(1)));
        assert(seq![b[0]] + b.skip(1) == b);
    }
}

/// Decoding what `urlencode` produces gives back the original text:
/// the collected bytes are exactly the UTF-8 encoding of `s`, so
/// `urldecode_plus(urlencode(s)) == s`.
pub proof fn urlencode_round_trip(s: Seq<char>)
    ensures
        decode_bytes(urlencode_spec(encode_utf8(s))) == encode_utf8(s),
        valid_utf8(decode_bytes(urlencode_spec(encode_utf8(s)))),
        decode_utf8(decode_bytes(urlencode_spec(encode_utf8(s)))) == s,
{
    lemma_decode_encode_bytes(encode_utf8(s));
    vstd::utf8::encode_utf8_valid_utf8(s);
    vstd::utf8::encode_utf8_decode_utf8(s);
}

// ---------- request bodies ----------

/// Body of `POST /api/v2/auth/login`.
pub open spec fn login_body_spec(user: Seq<char>, pass: Seq<char>) -> Seq<char> {
    "username="@ + urlencode_spec(encode_utf8(user)) + "&password="@ + urlencode_spec(
        encode_utf8(pass),
    )
}

pub fn login_body(user: &str, pass: &str) -> (r: String)
    ensures
        r@ == login_body_spec(user@, pass@),
{
    let mut out: Vec<char> = Vec::new();
    push_str(&mut out, "username=");
    push_str(&mut out, urlencode(user).as_str());
    push_str(&mut out, "&password=");
    push_str(&mut out, urlencode(pass).as_str());
    string_of(&out)
}

/// Body of `POST /api/v2/torrents/add`.
pub open spec fn add_magnet_body_spec(
    magnet: Seq<char>,
    save_path: Seq<char>,
    category: Option<Seq<char>>,
) -> Seq<char> {
    let base = "urls="@ + urlencode_spec(encode_utf8(magnet)) + "&savepath="@ + urlencode_spec(
        encode_utf8(save_path),
    ) + "&autoTMM=false"@;
    match category {
        Some(c) => base + "&category="@ + urlencode_spec(encode_utf8(c)),
        None => base,
    }
}

pub fn add_magnet_body(magnet: &str, save_path: &str, category: Option<&str>) -> (r: String)
    ensures
        r@ == add_magnet_body_spec(
            magnet@,
            save_path@,
            match category {
                Some(c) => Some(c@),
                None => None,
            },
        ),
{
    let mut out: Vec<char> = Vec::new();
    push_str(&mut out, "urls=");
    push_str(&mut out, urlencode(magnet).as_str());
    push_str(&mut out, "&savepath=");
    push_str(&mut out, urlencode(save_path).as_str());
    push_str(&mut out, "&autoTMM=false");
    match category {
        Some(c) => {
            push_str(&mut out, "&category=");
            push_str(&mut out, urlencode(c).as_str());
        },
        None => {},
    }
    string_of(&out)
}

/// `Fails.`
pub open spec fn fails_word() -> Seq<char> {
    seq!['f', 'a', 'i', 'l', 's', '.']
}

/// qBittorrent accepted a `torrents/add`: a success status, and a body
/// that is not `Fails.` (ignoring ASCII case and surrounding white space).
pub open spec fn add_accepted_spec(status_ok: bool, text: Seq<char>) -> bool {
    status_ok && text::seq_ascii_lower(text::trim_spec(text)) != fails_word()
}

pub fn add_accepted(status_ok: bool, text: &str) -> (r: bool)
    ensures
        r == add_accepted_spec(status_ok, text@),
{
    if !status_ok {
        return false;
    }
    let t = chars_of(text);
    let tt = trim(&t);
    let low = to_ascii_lowercase(&tt);
    let f = vec!['f', 'a', 'i', 'l', 's', '.'];
    assert(f@ == fails_word());
    !chars_eq(&low, &f)
}

/// `a` and `b` are the same text up to ASCII case.
pub open spec fn eq_ignore_ascii_case(a: Seq<char>, b: Seq<char>) -> bool {
    a.len() == b.len() && forall|i: int| 0 <= i < a.len() ==> text::ascii_lower(#[trigger] a[i]) == text::ascii_lower(b[i])
}

/// An add is accepted only with a success status, and never when the
/// body, trimmed, is qBittorrent's `Fails.` in any ASCII case.
pub proof fn law_add_refused_on_fails(status_ok: bool, body: Seq<char>)
    ensures
        add_accepted_spec(status_ok, body) ==> status_ok,
        eq_ignore_ascii_case(text::trim_spec(body), "Fails."@) ==> !add_accepted_spec(status_ok, body),
{
    reveal_strlit("Fails.");
    let t = text::trim_spec(body);
    if eq_ignore_ascii_case(t, "Fails."@) {
        assert forall|i: int| 0 <= i < t.len() implies text::seq_ascii_lower(t)[i] == fails_word()[i] by {
            assert(text::ascii_lower(t[i]) == text::ascii_lower("Fails."@[i]));
        }
        assert(text::seq_ascii_lower(t) =~= fails_word());
    }
}

// ---------- session cookie ----------

/// `SID=`
pub open spec fn sid_prefix() -> Seq<char> {
    seq!['S', 'I', 'D', '=']
}

/// The first `;`-separated part (trimmed) that is `SID=<non-empty>`.
pub open spec fn sid_in_parts(parts: Seq<Seq<char>>) -> Option<Seq<char>>
    decreases parts.len(),
{
    if parts.len() == 0 {
        None
    } else {
        let p = text::trim_spec(parts[0]);
        if text::has_prefix(p, sid_prefix()) && p.len() > 4 {
            Some(p.skip(4))
        } else {
            sid_in_parts(parts.skip(1))
        }
    }
}

/// The session id in the `Set-Cookie` header values, in order; a value
/// that is not visible ASCII (`None`) ends the search with nothing.
pub open spec fn sid_spec(values: Seq<Option<Seq<char>>>) -> Option<Seq<char>>
    decreases values.len(),
{
    if values.len() == 0 {
        None
    } else {
        match values[0] {
            None => None,
            Some(v) => match sid_in_parts(text::split_on(v, ';')) {
                Some(x) => Some(x),
                None => sid_spec(values.skip(1)),
            },
        }
    }
}

pub open spec fn opt_views(v: Seq<Option<String>>) -> Seq<Option<Seq<char>>> {
    v.map_values(|o: Option<String>| crate::matcher::opt_view(o))
}

fn sid_in_value(v: &String) -> (r: Option<String>)
    ensures
        match r {
            Some(x) => sid_in_parts(text::split_on(v@, ';')) == Some(x@),
            None => sid_in_parts(text::split_on(v@, ';')) is None,
        },
{
    let c = chars_of(v.as_str());
    let parts = split_on_exec(&c, ';');
    let ghost pv = text::views(parts@);
    let pfx = vec!['S', 'I', 'D', '='];
    assert(pfx@ == sid_prefix());
    let mut i: usize = 0;
    assert(pv.skip(0) == pv);
    while i < parts.len()
        invariant
            i <= parts@.len(),
            pv == text::views(parts@),
            pfx@ == sid_prefix(),
            pv == text::split_on(v@, ';'),
            sid_in_parts(pv) == sid_in_parts(pv.skip(i as int)),
        decreases parts@.len() - i,
    {
        let p = trim(&parts[i]);
        let ghost t = pv.skip(i as int);
        assert(t[0] == parts@[i as int]@);
        if text::has_prefix_exec(&p, &pfx) && p.len() > 4 {
            let rest = slice_chars(&p, 4, p.len());
            assert(rest@ == p@.skip(4));
            return Some(string_of(&rest));
        }
        assert(t.skip(1) == pv.skip(i + 1));
        i = i + 1;
    }
    None
}

/// The `SID` cookie among `Set-Cookie` header values.
pub fn sid_from_cookies(values: &Vec<Option<String>>) -> (r: Option<String>)
    ensures
        match r {
            Some(x) => sid_spec(opt_views(values@)) == Some(x@),
            None => sid_spec(opt_views(values@)) is None,
        },
{
    let ghost vv = opt_views(values@);
    let mut i: usize = 0;
    assert(vv.skip(0) == vv);
    while i < values.len()
        invariant
            i <= values@.len(),
            vv == opt_views(values@),
            sid_spec(vv) == sid_spec(vv.skip(i as int)),
        decreases values@.len() - i,
    {
        let ghost t = vv.skip(i as int);
        assert(t[0] == crate::matcher::opt_view(values@[i as int]));
        match &values[i] {
            None => {
                return None;
            },
            Some(v) => match sid_in_value(v) {
                Some(x) => {
                    return Some(x);
                },
                None => {},
            },
        }
        assert(t.skip(1) == vv.skip(i + 1));
        i = i + 1;
    }
    None
}

// ---------- endpoints ----------

/// The Web UI URL without trailing slashes.
pub open spec fn trimmed_base(base: Seq<char>) -> Seq<char> {
    base.take(base.len() - text::trail_run(base, crate::download::slash_pred()))
}

/// `<base>/<path>` for an API path, `base` without trailing slashes.
pub fn api_url(base: &str, path: &str) -> (r: String)
    ensures
        r@ == trimmed_base(base@) + path@,
{
    let b = chars_of(base);
    let n = b.len();
    let mut e = n;
    while e > 0 && b[e - 1] == '/'
        invariant
            e <= n == b@.len(),
            forall|i: int| e <= i < n ==> #[trigger] b@[i] == '/',
        decreases e,
    {
        e = e - 1;
    }
    proof {
        let s = b@;
        assert forall|i: int| s.len() - (n - e) <= i < s.len() implies #[trigger] crate::download::slash_pred()(s[i]) by {}
        text::lemma_trail_run_unique(s, crate::download::slash_pred(), n - e);
        assert(s.subrange(0, e as int) == s.take(e as int));
    }
    let mut out = slice_chars(&b, 0, e);
    push_str(&mut out, path);
    string_of(&out)
}

/// The `Cookie` header value carrying the session.
pub fn sid_cookie(sid: &str) -> (r: String)
    ensures
        r@ == sid_prefix() + sid@,
{
    let mut out: Vec<char> = vec!['S', 'I', 'D', '='];
    push_str(&mut out, sid);
    string_of(&out)
}

} // verus!
