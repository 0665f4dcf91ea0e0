//! Naming and freshness of the on-disk HTTP cache.
//!
//! Every GET body is kept under `<hex(sha256(key))>.bin`, where the key is
//! the URL followed, for each request header, by a NUL byte, the header's
//! name, `:` and its value. A cached body is served while it is younger
//! than the configured TTL. Reading and writing the files belong to the
//! application.

use vstd::prelude::*;
use vstd::utf8::encode_utf8;

use crate::generate::{bytes_sha256, sha256_digest};
use crate::text::{push_str, string_of};

verus! {

/// The lowercase hexadecimal digit of a nibble.
pub open spec fn hex_digit(n: u8) -> char {
    if n < 10 {
        (48 + n) as char
    } else {
        (87 + n) as char
    }
}

/// Lowercase hexadecimal text of a byte string, two digits per byte.
pub open spec fn hex_spec(b: Seq<u8>) -> Seq<char>
    decreases b.len(),
{
    if b.len() == 0 {
        seq![]
    } else {
        hex_spec(b.drop_last()) + seq![hex_digit(b.last() / 16), hex_digit(b.last() % 16)]
    }
}

/// Hex text has two digits per byte.
pub proof fn lemma_hex_len(b: Seq<u8>)
    ensures
        hex_spec(b).len() == 2 * b.len(),
    decreases b.len(),
{
    if b.len() > 0 {
        lemma_hex_len(b.drop_last());
    }
}

/// The bytes the request headers add to a cache key.
pub open spec fn header_key_bytes(hs: Seq<(Seq<char>, Seq<char>)>) -> Seq<u8>
    decreases hs.len(),
{
    if hs.len() == 0 {
        seq![]
    } else {
        header_key_bytes(hs.drop_last()) + seq![0u8] + encode_utf8(hs.last().0) + seq![58u8]
            + encode_utf8(hs.last().1)
    }
}

/// The bytes a request's cache key is the digest of.
pub open spec fn key_bytes(url: Seq<char>, hs: Seq<(Seq<char>, Seq<char>)>) -> Seq<u8> {
    encode_utf8(url) + header_key_bytes(hs)
}

/// The name of the file a request's body is cached in.
pub open spec fn cache_file_spec(url: Seq<char>, hs: Seq<(Seq<char>, Seq<char>)>) -> Seq<char> {
    hex_spec(sha256_digest(key_bytes(url, hs))) + ".bin"@
}

pub open spec fn header_views(v: Seq<(String, String)>) -> Seq<(Seq<char>, Seq<char>)> {
    v.map_values(|h: (String, String)| (h.0@, h.1@))
}

fn nibble_char(n: u8) -> (r: char)
    requires
        n < 16,
    ensures
        r == hex_digit(n),
{
    if n < 10 {
        (48u8 + n) as char
    } else {
        (87u8 + n) as char
    }
}

/// Lowercase hexadecimal text of `b`.
pub fn hex_lower(b: &Vec<u8>) -> (r: Vec<char>)
    ensures
        r@ == hex_spec(b@),
{
    let mut out: Vec<char> = Vec::new();
    let mut i: usize = 0;
    while i < b.len()
        invariant
            i <= b@.len(),
            out@ == hex_spec(b@.take(i as int)),
        decreases b@.len() - i,
    {
        let x = b[i];
        assert(b@.take(i + 1).drop_last() == b@.take(i as int));
        out.push(nibble_char(x / 16));
        out.push(nibble_char(x % 16));
        i = i + 1;
    }
    assert(b@.take(b@.len() as int) == b@);
    out
}

pub(crate) fn push_bytes(out: &mut Vec<u8>, s: &str)
    ensures
        final(out)@ == old(out)@ + encode_utf8(s@),
{
    let b = s.as_bytes();
    let mut i: usize = 0;
    while i < b.len()
        invariant
            b@ == encode_utf8(s@),
            i <= b@.len(),
            out@ == old(out)@ + b@.take(i as int),
        decreases b@.len() - i,
    {
        out.push(b[i]);
        i = i + 1;
        assert(b@.take(i as int) == b@.take(i - 1).push(b@[i - 1]));
    }
    assert(b@.take(b@.len() as int) == b@);
}

/// The file name a GET of `url` with `headers` is cached under.
pub fn cache_file_name(url: &str, headers: &Vec<(String, String)>) -> (r: String)
    ensures
        r@ == cache_file_spec(url@, header_views(headers@)),
{
    let ghost hv = header_views(headers@);
    let mut key: Vec<u8> = Vec::new();
    push_bytes(&mut key, url);
    assert(key@ == encode_utf8(url@) + header_key_bytes(hv.take(0)));
    let mut i: usize = 0;
    while i < headers.len()
        invariant
            hv == header_views(headers@),
            i <= headers@.len(),
            key@ == encode_utf8(url@) + header_key_bytes(hv.take(i as int)),
        decreases headers@.len() - i,
    {
        let ghost before = key@;
        key.push(0u8);
        push_bytes(&mut key, headers[i].0.as_str());
        key.push(58u8);
        push_bytes(&mut key, headers[i].1.as_str());
        assert(hv.take(i + 1).drop_last() == hv.take(i as int));
        assert(hv.take(i + 1).last() == (headers@[i as int].0@, headers@[i as int].1@));
        assert(key@ == encode_utf8(url@) + header_key_bytes(hv.take(i + 1)));
        i = i + 1;
    }
    assert(hv.take(headers@.len() as int) == hv);
    let digest = bytes_sha256(&key);
    let mut name = hex_lower(&digest);
    push_str(&mut name, ".bin");
    string_of(&name)
}

/// A cached body is fresh while its age is under the TTL; a modification
/// time in the future counts as age zero.
pub open spec fn fresh_spec(now: u128, modified: u128, ttl: u128) -> bool {
    (if now >= modified {
        now - modified
    } else {
        0
    }) < ttl
}

/// Whether a body cached at `modified_nanos` may still be served at
/// `now_nanos` (both since the epoch) under a TTL of `ttl_nanos`.
pub fn is_fresh(now_nanos: u128, modified_nanos: u128, ttl_nanos: u128) -> (r: bool)
    ensures
        r == fresh_spec(now_nanos, modified_nanos, ttl_nanos),
{
    let age = if now_nanos >= modified_nanos {
        now_nanos - modified_nanos
    } else {
        0
    };
    age < ttl_nanos
}

} // verus!
