//! Pluggable metadata data sources.
//!
//! A `DataSource` answers queries about One Pace's series, seasons,
//! episodes and images. The adapters for onepace.net, the SpykerNZ NFO
//! bundle and the community Google Sheet keep their network half with the
//! application; what they compute from the fetched text lives in the
//! submodules here. `composite::Composite` chains sources in order.

use vstd::prelude::*;

use crate::matcher::{self, ParsedFile, normalize_arc};
use crate::model::{Episode, Season, Series};

pub mod cache;
pub mod composite;
pub mod onepacenet;
pub mod sheet;
pub mod spykernz;

verus! {

#[verifier::external_type_specification]
#[verifier::external_body]
pub struct ExAnyhowError(anyhow::Error);

/// Which on-disk image kind the caller wants.
#[derive(Debug, Clone, Copy, PartialEq, Eq, Hash)]
pub enum ImageKind {
    SeriesPoster,
    SeasonPoster { number: u32 },
}

/// A source of One Pace metadata. Implementations usually reach an
/// outside service, so nothing is promised about what a call returns.
pub trait DataSource {
    /// Human-readable adapter name, useful in logs.
    fn name(&self) -> &'static str;

    /// Series-level metadata; `Ok(None)` if this source has none.
    fn series(&self) -> Result<Option<Series>, anyhow::Error>;

    /// Per-season metadata; `Ok(None)` if the source has no such season.
    fn season(&self, number: u32) -> Result<Option<Season>, anyhow::Error>;

    /// Episode metadata keyed by normalized arc name + 1-based number.
    fn episode(&self, arc_normalized: &str, episode_number: u32) -> Result<
        Option<Episode>,
        anyhow::Error,
    >;

    /// Image bytes for the given kind, if available.
    fn image(&self, kind: ImageKind) -> Result<Option<Vec<u8>>, anyhow::Error>;

    /// Map a file's CRC32 (uppercase hex) to its canonical
    /// `(normalized_arc_name, episode_number)`; by default no source has
    /// such an index.
    fn identify_by_crc(&self, crc: &str) -> (r: Result<Option<(String, u32)>, anyhow::Error>)
        default_ensures
            r matches Ok(None),
    {
        Ok(None)
    }
}

/// The identity a file falls back on: its own arc, normalized, and
/// episode number.
pub open spec fn fallback_identity(p: matcher::ParsedFileView) -> (Seq<char>, u32) {
    (matcher::normalize_arc_spec(p.arc), p.episode)
}

/// Picks the canonical `(arc_normalized, episode)` of a parsed file given
/// what the CRC oracle answered (`None` when it had no answer or failed).
pub fn choose_identity(oracle: Option<(String, u32)>, parsed: &ParsedFile) -> (r: (String, u32))
    ensures
        match oracle {
            Some((a, e)) => r.0@ == a@ && r.1 == e,
            None => (r.0@, r.1) == fallback_identity(parsed@),
        },
{
    match oracle {
        Some(x) => x,
        None => (normalize_arc(parsed.arc.as_str()), parsed.episode),
    }
}

/// Canonical `(arc_normalized, episode)` for a parsed file, preferring
/// the source chain's CRC oracle when the filename carries a CRC and the
/// oracle answers; otherwise the filename's own arc and episode. What the
/// oracle answers is the source's to give, so the contract states the
/// result only for a file without a CRC; `choose_identity` states it for
/// every answer.
pub fn identify_or_fallback(source: &dyn DataSource, parsed: &ParsedFile) -> (r: (String, u32))
    ensures
        parsed.crc32 is None ==> (r.0@, r.1) == fallback_identity(parsed@),
{
    let oracle = match &parsed.crc32 {
        Some(crc) => match source.identify_by_crc(crc.as_str()) {
            Ok(Some(x)) => Some(x),
            _ => None,
        },
        None => None,
    };
    choose_identity(oracle, parsed)
}

} // verus!
