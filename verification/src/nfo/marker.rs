//! The authorship marker of the NFOs we write.
//!
//! An NFO we write ends in `<!-- pacefinder:sha256=<hex> -->` and a line
//! feed, where `<hex>` is the lowercase SHA-256 of the UTF-8 text before
//! the marker. Reading it back tells our unedited NFOs (safe to update)
//! from ours edited since and from foreign ones.

use vstd::prelude::*;
use vstd::utf8::encode_utf8;

use crate::generate::{MarkerStatus, bytes_sha256, sha256_digest};
use crate::source::cache::{hex_lower, hex_spec, lemma_hex_len, push_bytes};
use crate::text::{chars_of, string_of, slice_chars, push_all, push_str, chars_eq, str_eq_chars};

verus! {

/// `<!-- pacefinder:sha256=`
pub open spec fn marker_open() -> Seq<char> {
    "<!-- pacefinder:sha256="@
}

/// ` -->` and a line feed.
pub open spec fn marker_close() -> Seq<char> {
    " -->\n"@
}

/// The lowercase hex SHA-256 of a text's UTF-8 bytes.
pub open spec fn text_digest_hex(body: Seq<char>) -> Seq<char> {
    hex_spec(sha256_digest(encode_utf8(body)))
}

/// An NFO body with our marker after it.
pub open spec fn stamped(body: Seq<char>) -> Seq<char> {
    body + marker_open() + text_digest_hex(body) + marker_close()
}

/// What an NFO's content says of its author: no well-formed marker at its
/// end, ours with the text before it unchanged, or ours edited since.
pub open spec fn marker_status_spec(c: Seq<char>) -> MarkerStatus {
    let n = c.len();
    if n < 92 || c.subrange(n - 92, n - 69) != marker_open() || c.subrange(n - 5, n as int)
        != marker_close() {
        MarkerStatus::Absent
    } else if c.subrange(n - 69, n - 5) == text_digest_hex(c.subrange(0, n - 92)) {
        MarkerStatus::IntactOurs
    } else {
        MarkerStatus::EditedOurs
    }
}

fn digest_hex(body: &str) -> (r: Vec<char>)
    ensures
        r@ == text_digest_hex(body@),
        r@.len() == 64,
{
    let mut bytes: Vec<u8> = Vec::new();
    push_bytes(&mut bytes, body);
    assert(bytes@ == encode_utf8(body@));
    let d = bytes_sha256(&bytes);
    proof {
        lemma_hex_len(d@);
    }
    hex_lower(&d)
}

/// An NFO body with our marker appended; reading the result back finds
/// it ours and unedited.
pub fn stamp_nfo(body: &str) -> (r: String)
    ensures
        r@ == stamped(body@),
        marker_status_spec(r@) == MarkerStatus::IntactOurs,
{
    proof {
        reveal_strlit("<!-- pacefinder:sha256=");
        reveal_strlit(" -->\n");
    }
    let hex = digest_hex(body);
    let mut out = chars_of(body);
    push_str(&mut out, "<!-- pacefinder:sha256=");
    push_all(&mut out, &hex);
    push_str(&mut out, " -->\n");
    let ghost c = out@;
    let ghost n = c.len();
    assert(c == stamped(body@));
    assert(n == body@.len() + 92);
    assert(c.subrange(n - 92, n - 69) =~= marker_open());
    assert(c.subrange(n - 69, n - 5) =~= hex@);
    assert(c.subrange(n - 5, n as int) =~= marker_close());
    assert(c.subrange(0, n - 92) =~= body@);
    string_of(&out)
}

/// Whether an existing NFO's content carries our marker, and whether the
/// text before it is unchanged.
pub fn marker_status_of(content: &str) -> (r: MarkerStatus)
    ensures
        r == marker_status_spec(content@),
{
    proof {
        reveal_strlit("<!-- pacefinder:sha256=");
        reveal_strlit(" -->\n");
    }
    let c = chars_of(content);
    let n = c.len();
    if n < 92 {
        return MarkerStatus::Absent;
    }
    let open = slice_chars(&c, n - 92, n - 69);
    let close = slice_chars(&c, n - 5, n);
    if !str_eq_chars("<!-- pacefinder:sha256=", &open) || !str_eq_chars(" -->\n", &close) {
        return MarkerStatus::Absent;
    }
    let body = string_of(&slice_chars(&c, 0, n - 92));
    let hex = digest_hex(body.as_str());
    let given = slice_chars(&c, n - 69, n - 5);
    if chars_eq(&given, &hex) {
        MarkerStatus::IntactOurs
    } else {
        MarkerStatus::EditedOurs
    }
}

} // verus!
