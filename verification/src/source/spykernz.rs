//! The computing half of the SpykerNZ adapter: the community dataset is a
//! GitHub repository of Kodi NFO files and posters. One Trees API call
//! lists every path; the index here classifies them by season and
//! episode, and names the raw URL each file is fetched from. The HTTP
//! calls and NFO decoding belong to the application.

use std::collections::HashMap;

use vstd::prelude::*;

use crate::matcher::{self, normalize_arc};
use crate::model::Series;
use crate::source::ImageKind;
use crate::text::{self, chars_of, string_of, slice_chars, occurs_at_exec, push_str,
    regex_is_digit, parse_u32_range, first_occ_exec, str_eq_chars};

verus! {

broadcast use vstd::std_specs::hash::group_hash_axioms;

/// One entry of the GitHub Trees listing.
pub struct GitHubTreeEntry {
    pub path: String,
    /// `blob` for a file, `tree` for a directory.
    pub kind: String,
}

/// The files one season has in the dataset.
pub struct SeasonEntry {
    pub season_nfo: Option<String>,
    pub season_poster: Option<String>,
    pub episodes: HashMap<u32, String>,
}

/// Where the dataset keeps the series, season and episode files.
pub struct Index {
    pub series_nfo: Option<String>,
    pub series_poster: Option<String>,
    pub seasons: HashMap<u32, SeasonEntry>,
}

pub struct SeasonEntryView {
    pub season_nfo: Option<Seq<char>>,
    pub season_poster: Option<Seq<char>>,
    pub episodes: Map<u32, Seq<char>>,
}

pub struct IndexView {
    pub series_nfo: Option<Seq<char>>,
    pub series_poster: Option<Seq<char>>,
    pub seasons: Map<u32, SeasonEntryView>,
}

impl View for SeasonEntry {
    type V = SeasonEntryView;

    open spec fn view(&self) -> SeasonEntryView {
        SeasonEntryView {
            season_nfo: matcher::opt_view(self.season_nfo),
            season_poster: matcher::opt_view(self.season_poster),
            episodes: self.episodes@.map_values(|p: String| p@),
        }
    }
}

impl View for Index {
    type V = IndexView;

    open spec fn view(&self) -> IndexView {
        IndexView {
            series_nfo: matcher::opt_view(self.series_nfo),
            series_poster: matcher::opt_view(self.series_poster),
            seasons: self.seasons@.map_values(|e: SeasonEntry| e@),
        }
    }
}

// ---------- path grammar ----------

/// What a dataset path holds.
#[derive(Debug, Clone, Copy, PartialEq, Eq, Structural)]
pub enum PathKind {
    SeriesNfo,
    SeriesPoster,
    SeasonPoster(u32),
    SeasonNfo(u32),
    EpisodeNfo(u32, u32),
    Other,
}

/// Length of the run of `\d` characters (Unicode digits, as the `regex`
/// crate's `\d` has them) starting at `i`.
pub open spec fn digit_run(s: Seq<char>, i: int) -> nat
    decreases s.len() - i,
{
    if 0 <= i < s.len() && text::regex_digit(s[i]) {
        1 + digit_run(s, i + 1)
    } else {
        0
    }
}

/// A captured digit run as a number: its `u32` value, or 0 when it does
/// not parse (non-ASCII digits or overflow).
pub open spec fn number_or_zero(d: Seq<char>) -> u32 {
    match text::parse_u32_spec(d) {
        Some(v) => v,
        None => 0,
    }
}

/// The digits starting at `i`, as a number (0 if they do not parse).
pub open spec fn num_at(s: Seq<char>, i: int) -> u32 {
    number_or_zero(s.subrange(i, i + digit_run(s, i) as int))
}

pub open spec fn season_poster_prefix() -> Seq<char> {
    "One Pace/season"@
}

pub open spec fn season_dir_prefix() -> Seq<char> {
    "One Pace/Season "@
}

/// `One Pace/season<N>-poster.<ext>` with `ext` lowercase ASCII letters.
pub open spec fn season_poster_at(s: Seq<char>) -> bool {
    let d = digit_run(s, 15) as int;
    &&& text::occurs_at(s, season_poster_prefix(), 0)
    &&& d >= 1
    &&& text::occurs_at(s, "-poster."@, 15 + d)
    &&& 15 + d + 8 < s.len()
    &&& forall|i: int| 15 + d + 8 <= i < s.len() ==> text::is_ascii_lower(#[trigger] s[i])
}

/// `One Pace/Season <N>/season.nfo`.
pub open spec fn season_nfo_at(s: Seq<char>) -> bool {
    let d = digit_run(s, 16) as int;
    &&& text::occurs_at(s, season_dir_prefix(), 0)
    &&& d >= 1
    &&& text::occurs_at(s, "/season.nfo"@, 16 + d)
    &&& 16 + d + 11 == s.len()
}

/// `One Pace/Season <N>/One Pace - S<digits>E<M> - <title>.nfo`, the
/// title at least one character, none of it a line feed.
pub open spec fn episode_nfo_at(s: Seq<char>) -> bool {
    let d1 = digit_run(s, 16) as int;
    let a = 16 + d1 + 13;
    let d2 = digit_run(s, a) as int;
    let b = a + d2 + 1;
    let d3 = digit_run(s, b) as int;
    let c = b + d3 + 3;
    &&& text::occurs_at(s, season_dir_prefix(), 0)
    &&& d1 >= 1
    &&& text::occurs_at(s, "/One Pace - S"@, 16 + d1)
    &&& d2 >= 1
    &&& text::occurs_at(s, "E"@, a + d2)
    &&& d3 >= 1
    &&& text::occurs_at(s, " - "@, b + d3)
    &&& c + 5 <= s.len()
    &&& text::occurs_at(s, ".nfo"@, s.len() - 4)
    &&& forall|i: int| c <= i < s.len() ==> #[trigger] s[i] != '\n'
}

/// Where the episode number of an episode NFO path starts.
pub open spec fn episode_number_start(s: Seq<char>) -> int {
    let a = 16 + digit_run(s, 16) as int + 13;
    a + digit_run(s, a) as int + 1
}

/// How a dataset path is classified.
pub open spec fn classify_spec(s: Seq<char>) -> PathKind {
    if s == "One Pace/tvshow.nfo"@ {
        PathKind::SeriesNfo
    } else if s == "One Pace/poster.png"@ {
        PathKind::SeriesPoster
    } else if season_poster_at(s) {
        PathKind::SeasonPoster(num_at(s, 15))
    } else if season_nfo_at(s) {
        PathKind::SeasonNfo(num_at(s, 16))
    } else if episode_nfo_at(s) {
        PathKind::EpisodeNfo(num_at(s, 16), num_at(s, episode_number_start(s)))
    } else {
        PathKind::Other
    }
}

fn digit_run_exec(s: &Vec<char>, i: usize) -> (r: usize)
    requires
        i <= s@.len(),
    ensures
        r == digit_run(s@, i as int),
        i + r <= s@.len(),
{
    let mut j = i;
    while j < s.len() && regex_is_digit(s[j])
        invariant
            i <= j <= s@.len(),
            digit_run(s@, i as int) == (j - i) + digit_run(s@, j as int),
        decreases s@.len() - j,
    {
        j = j + 1;
    }
    j - i
}

fn num_at_exec(s: &Vec<char>, i: usize, d: usize) -> (r: u32)
    requires
        i + d <= s@.len(),
        d == digit_run(s@, i as int),
    ensures
        r == num_at(s@, i as int),
{
    let n = s.len();
    match parse_u32_range(s, i, i + d) {
        Some(v) => v,
        None => 0,
    }
}

fn lit_at(s: &Vec<char>, lit: &str, i: usize) -> (r: bool)
    ensures
        r == text::occurs_at(s@, lit@, i as int),
{
    let l = chars_of(lit);
    occurs_at_exec(s, &l, i)
}

fn season_poster_exec(s: &Vec<char>) -> (r: bool)
    ensures
        r == season_poster_at(s@),
{
    let n = s.len();
    proof {
        reveal_strlit("One Pace/season");
        reveal_strlit("-poster.");
    }
    if !lit_at(s, "One Pace/season", 0) {
        return false;
    }
    proof {
        reveal_strlit("One Pace/season");
    }
    let d = digit_run_exec(s, 15);
    if d == 0 || !lit_at(s, "-poster.", 15 + d) {
        return false;
    }
    proof {
        reveal_strlit("-poster.");
    }
    let e = 15 + d + 8;
    if e >= s.len() {
        return false;
    }
    assert(season_poster_at(s@) == forall|k: int| e <= k < s@.len() ==> text::is_ascii_lower(#[trigger] s@[k]));
    let mut i = e;
    while i < s.len()
        invariant
            e <= i <= s@.len(),
            forall|k: int| e <= k < i ==> text::is_ascii_lower(#[trigger] s@[k]),
            season_poster_at(s@) == forall|k: int| e <= k < s@.len() ==> text::is_ascii_lower(#[trigger] s@[k]),
        decreases s@.len() - i,
    {
        if !('a' <= s[i] && s[i] <= 'z') {
            assert(!text::is_ascii_lower(s@[i as int]));
            return false;
        }
        i = i + 1;
    }
    true
}

fn season_nfo_exec(s: &Vec<char>) -> (r: bool)
    ensures
        r == season_nfo_at(s@),
{
    let n = s.len();
    proof {
        reveal_strlit("One Pace/Season ");
        reveal_strlit("/season.nfo");
    }
    if !lit_at(s, "One Pace/Season ", 0) {
        return false;
    }
    proof {
        reveal_strlit("One Pace/Season ");
    }
    let d = digit_run_exec(s, 16);
    proof {
        reveal_strlit("/season.nfo");
    }
    d >= 1 && lit_at(s, "/season.nfo", 16 + d) && 16 + d + 11 == s.len()
}

fn episode_nfo_exec(s: &Vec<char>) -> (r: Option<(u32, u32)>)
    ensures
        match r {
            Some((a, b)) => episode_nfo_at(s@) && classify_spec(s@) == (if s@ == "One Pace/tvshow.nfo"@ {
                PathKind::SeriesNfo
            } else if s@ == "One Pace/poster.png"@ {
                PathKind::SeriesPoster
            } else if season_poster_at(s@) {
                PathKind::SeasonPoster(num_at(s@, 15))
            } else if season_nfo_at(s@) {
                PathKind::SeasonNfo(num_at(s@, 16))
            } else {
                PathKind::EpisodeNfo(a, b)
            }),
            None => !episode_nfo_at(s@),
        },
{
    if !lit_at(s, "One Pace/Season ", 0) {
        return None;
    }
    proof {
        reveal_strlit("One Pace/Season ");
        reveal_strlit("/One Pace - S");
        reveal_strlit("E");
        reveal_strlit(" - ");
        reveal_strlit(".nfo");
    }
    let n = s.len();
    let d1 = digit_run_exec(s, 16);
    if d1 == 0 || !lit_at(s, "/One Pace - S", 16 + d1) {
        return None;
    }
    let a = 16 + d1 + 13;
    let d2 = digit_run_exec(s, a);
    if d2 == 0 || !lit_at(s, "E", a + d2) {
        return None;
    }
    let b = a + d2 + 1;
    let d3 = digit_run_exec(s, b);
    if d3 == 0 || !lit_at(s, " - ", b + d3) {
        return None;
    }
    let c = b + d3 + 3;
    if n < 5 || c > n - 5 || !lit_at(s, ".nfo", n - 4) {
        return None;
    }
    let season = num_at_exec(s, 16, d1);
    let episode = num_at_exec(s, b, d3);
    assert(episode_number_start(s@) == b);
    assert(episode_nfo_at(s@) == forall|k: int| c <= k < n ==> #[trigger] s@[k] != '\n');
    let mut i = c;
    while i < n
        invariant
            n == s@.len(),
            c <= i <= n,
            forall|k: int| c <= k < i ==> #[trigger] s@[k] != '\n',
            episode_nfo_at(s@) == forall|k: int| c <= k < n ==> #[trigger] s@[k] != '\n',
        decreases n - i,
    {
        if s[i] == '\n' {
            return None;
        }
        i = i + 1;
    }
    Some((season, episode))
}

/// Which dataset file a path names.
pub fn classify_path(path: &str) -> (r: PathKind)
    ensures
        r == classify_spec(path@),
{
    let s = chars_of(path);
    if str_eq_chars("One Pace/tvshow.nfo", &s) {
        return PathKind::SeriesNfo;
    }
    if str_eq_chars("One Pace/poster.png", &s) {
        return PathKind::SeriesPoster;
    }
    if season_poster_exec(&s) {
        let d = digit_run_exec(&s, 15);
        return PathKind::SeasonPoster(num_at_exec(&s, 15, d));
    }
    if season_nfo_exec(&s) {
        let d = digit_run_exec(&s, 16);
        return PathKind::SeasonNfo(num_at_exec(&s, 16, d));
    }
    match episode_nfo_exec(&s) {
        Some((a, b)) => PathKind::EpisodeNfo(a, b),
        None => PathKind::Other,
    }
}

// ---------- index ----------

pub open spec fn empty_season() -> SeasonEntryView {
    SeasonEntryView { season_nfo: None, season_poster: None, episodes: Map::empty() }
}

/// Season `n`'s entry, or an empty one.
pub open spec fn season_or_empty(m: Map<u32, SeasonEntryView>, n: u32) -> SeasonEntryView {
    if m.contains_key(n) {
        m[n]
    } else {
        empty_season()
    }
}

/// The index after one more tree entry: directories and unrecognized
/// paths change nothing; a recognized file is recorded in its slot,
/// replacing what was there.
pub open spec fn index_step(iv: IndexView, path: Seq<char>, kind: Seq<char>) -> IndexView {
    if kind != "blob"@ {
        iv
    } else {
        match classify_spec(path) {
            PathKind::SeriesNfo => IndexView { series_nfo: Some(path), ..iv },
            PathKind::SeriesPoster => IndexView { series_poster: Some(path), ..iv },
            PathKind::SeasonPoster(n) => IndexView {
                seasons: iv.seasons.insert(
                    n,
                    SeasonEntryView { season_poster: Some(path), ..season_or_empty(iv.seasons, n) },
                ),
                ..iv
            },
            PathKind::SeasonNfo(n) => IndexView {
                seasons: iv.seasons.insert(
                    n,
                    SeasonEntryView { season_nfo: Some(path), ..season_or_empty(iv.seasons, n) },
                ),
                ..iv
            },
            PathKind::EpisodeNfo(n, e) => IndexView {
                seasons: iv.seasons.insert(
                    n,
                    SeasonEntryView {
                        episodes: season_or_empty(iv.seasons, n).episodes.insert(e, path),
                        ..season_or_empty(iv.seasons, n)
                    },
                ),
                ..iv
            },
            PathKind::Other => iv,
        }
    }
}

/// The index of a whole tree listing, entries taken in order.
pub open spec fn index_spec(entries: Seq<(Seq<char>, Seq<char>)>) -> IndexView
    decreases entries.len(),
{
    if entries.len() == 0 {
        IndexView { series_nfo: None, series_poster: None, seasons: Map::empty() }
    } else {
        index_step(index_spec(entries.drop_last()), entries.last().0, entries.last().1)
    }
}

pub open spec fn entry_views(v: Seq<GitHubTreeEntry>) -> Seq<(Seq<char>, Seq<char>)> {
    v.map_values(|e: GitHubTreeEntry| (e.path@, e.kind@))
}

impl SeasonEntry {
    pub fn empty() -> (r: SeasonEntry)
        ensures
            r@ == empty_season(),
    {
        let r = SeasonEntry { season_nfo: None, season_poster: None, episodes: HashMap::new() };
        assert(r@.episodes =~= Map::<u32, Seq<char>>::empty());
        r
    }
}

impl Index {
    /// Takes season `n`'s entry out of the index (an empty one if absent).
    fn take_season(&mut self, n: u32) -> (r: SeasonEntry)
        ensures
            r@ == season_or_empty(old(self)@.seasons, n),
            final(self)@.seasons == old(self)@.seasons.remove(n),
            final(self)@.series_nfo == old(self)@.series_nfo,
            final(self)@.series_poster == old(self)@.series_poster,
    {
        let r = match self.seasons.remove(&n) {
            Some(e) => e,
            None => SeasonEntry::empty(),
        };
        assert(self@.seasons =~= old(self)@.seasons.remove(n));
        r
    }

    fn put_season(&mut self, n: u32, e: SeasonEntry)
        ensures
            final(self)@.seasons == old(self)@.seasons.insert(n, e@),
            final(self)@.series_nfo == old(self)@.series_nfo,
            final(self)@.series_poster == old(self)@.series_poster,
    {
        self.seasons.insert(n, e);
        assert(self@.seasons =~= old(self)@.seasons.insert(n, e@));
    }
}

/// Classifies every blob of a tree listing into series, season and
/// episode slots; directories and other files are ignored.
pub fn build_index(entries: &Vec<GitHubTreeEntry>) -> (r: Index)
    ensures
        r@ == index_spec(entry_views(entries@)),
{
    let mut idx = Index { series_nfo: None, series_poster: None, seasons: HashMap::new() };
    assert(idx@.seasons =~= Map::<u32, SeasonEntryView>::empty());
    let mut i: usize = 0;
    while i < entries.len()
        invariant
            i <= entries@.len(),
            idx@ == index_spec(entry_views(entries@).take(i as int)),
        decreases entries@.len() - i,
    {
        let ghost prev = idx@;
        let entry = &entries[i];
        assert(entry_views(entries@).take(i + 1).drop_last() == entry_views(entries@).take(i as int));
        assert(entry_views(entries@).take(i + 1).last() == (entry.path@, entry.kind@));
        if str_eq_chars("blob", &chars_of(entry.kind.as_str())) {
            let path = entry.path.as_str();
            match classify_path(path) {
                PathKind::SeriesNfo => {
                    idx.series_nfo = Some(path.to_owned());
                },
                PathKind::SeriesPoster => {
                    idx.series_poster = Some(path.to_owned());
                },
                PathKind::SeasonPoster(n) => {
                    let mut e = idx.take_season(n);
                    e.season_poster = Some(path.to_owned());
                    idx.put_season(n, e);
                    assert(idx@.seasons =~= prev.seasons.insert(n, SeasonEntryView { season_poster: Some(path@), ..season_or_empty(prev.seasons, n) }));
                },
                PathKind::SeasonNfo(n) => {
                    let mut e = idx.take_season(n);
                    e.season_nfo = Some(path.to_owned());
                    idx.put_season(n, e);
                    assert(idx@.seasons =~= prev.seasons.insert(n, SeasonEntryView { season_nfo: Some(path@), ..season_or_empty(prev.seasons, n) }));
                },
                PathKind::EpisodeNfo(n, ep) => {
                    let mut e = idx.take_season(n);
                    let ghost before = e@;
                    e.episodes.insert(ep, path.to_owned());
                    assert(e@.episodes =~= before.episodes.insert(ep, path@));
                    idx.put_season(n, e);
                    assert(idx@.seasons =~= prev.seasons.insert(n, SeasonEntryView { episodes: season_or_empty(prev.seasons, n).episodes.insert(ep, path@), ..season_or_empty(prev.seasons, n) }));
                },
                PathKind::Other => {},
            }
        }
        i = i + 1;
    }
    assert(entry_views(entries@).take(i as int) == entry_views(entries@));
    idx
}

impl Index {
    /// Path of season `number`'s `season.nfo`, if the dataset has one.
    pub fn season_nfo_path(&self, number: u32) -> (r: Option<String>)
        ensures
            matcher::opt_view(r) == (if self@.seasons.contains_key(number) {
                self@.seasons[number].season_nfo
            } else {
                None
            }),
    {
        match self.seasons.get(&number) {
            Some(s) => matcher::clone_opt_string(&s.season_nfo),
            None => None,
        }
    }

    /// Path of the NFO of episode `episode` of season `season`, if any.
    pub fn episode_nfo_path(&self, season: u32, episode: u32) -> (r: Option<String>)
        ensures
            matcher::opt_view(r) == (if self@.seasons.contains_key(season)
                && self@.seasons[season].episodes.contains_key(episode) {
                Some(self@.seasons[season].episodes[episode])
            } else {
                None
            }),
    {
        match self.seasons.get(&season) {
            Some(s) => match s.episodes.get(&episode) {
                Some(p) => Some(p.clone()),
                None => None,
            },
            None => None,
        }
    }

    /// Path of the poster an image request asks for, if any.
    pub fn image_path(&self, kind: ImageKind) -> (r: Option<String>)
        ensures
            matcher::opt_view(r) == match kind {
                ImageKind::SeriesPoster => self@.series_poster,
                ImageKind::SeasonPoster { number } => if self@.seasons.contains_key(number) {
                    self@.seasons[number].season_poster
                } else {
                    None
                },
            },
    {
        match kind {
            ImageKind::SeriesPoster => matcher::clone_opt_string(&self.series_poster),
            ImageKind::SeasonPoster { number } => match self.seasons.get(&number) {
                Some(s) => matcher::clone_opt_string(&s.season_poster),
                None => None,
            },
        }
    }
}

// ---------- URLs and names ----------

/// `path` with each space written `%20`.
pub open spec fn encode_path_spec(s: Seq<char>) -> Seq<char>
    decreases s.len(),
{
    if s.len() == 0 {
        seq![]
    } else {
        encode_path_spec(s.drop_last()) + if s.last() == ' ' {
            seq!['%', '2', '0']
        } else {
            seq![s.last()]
        }
    }
}

/// Raw GitHub serves names with spaces, commas and apostrophes; only the
/// spaces need percent-encoding.
pub fn encode_path(path: &str) -> (r: String)
    ensures
        r@ == encode_path_spec(path@),
{
    let s = chars_of(path);
    let mut out: Vec<char> = Vec::new();
    let mut i: usize = 0;
    while i < s.len()
        invariant
            i <= s@.len(),
            out@ == encode_path_spec(s@.take(i as int)),
        decreases s@.len() - i,
    {
        assert(s@.take(i + 1).drop_last() == s@.take(i as int));
        if s[i] == ' ' {
            out.push('%');
            out.push('2');
            out.push('0');
            assert(out@ =~= encode_path_spec(s@.take(i as int)) + seq!['%', '2', '0']);
        } else {
            out.push(s[i]);
            assert(out@ =~= encode_path_spec(s@.take(i as int)) + seq![s@[i as int]]);
        }
        i = i + 1;
    }
    assert(s@.take(i as int) == path@);
    string_of(&out)
}

/// Base of the dataset's raw file URLs.
pub open spec fn raw_base() -> Seq<char> {
    "https://raw.githubusercontent.com/SpykerNZ/one-pace-for-plex/main/"@
}

/// The raw URL a dataset file is fetched from.
pub fn raw_url(path: &str) -> (r: String)
    ensures
        r@ == raw_base() + encode_path_spec(path@),
{
    let mut out: Vec<char> = Vec::new();
    push_str(&mut out, "https://raw.githubusercontent.com/SpykerNZ/one-pace-for-plex/main/");
    push_str(&mut out, encode_path(path).as_str());
    string_of(&out)
}

/// `". "`
pub open spec fn dot_space() -> Seq<char> {
    seq!['.', ' ']
}

/// An arc name without its `"<N>. "` prefix: what follows the first
/// `". "`, or the name itself.
pub open spec fn strip_leading_number_spec(s: Seq<char>) -> Seq<char> {
    match text::first_occ(s, dot_space(), 0) {
        Some(k) => s.subrange(k + 2, s.len() as int),
        None => s,
    }
}

/// The dataset names seasons like `"1. Romance Dawn"`; users see
/// `"Romance Dawn"`.
pub fn strip_leading_number(name: &str) -> (r: String)
    ensures
        r@ == strip_leading_number_spec(name@),
{
    let s = chars_of(name);
    let n = s.len();
    let pat = vec!['.', ' '];
    assert(pat@ == dot_space());
    match first_occ_exec(&s, &pat, 0) {
        Some(k) => {
            proof {
                text::lemma_first_occ(s@, pat@, 0);
            }
            let rest = slice_chars(&s, k + 2, s.len());
            string_of(&rest)
        },
        None => string_of(&s),
    }
}

/// The dataset's spelling of a normalized arc name, where it differs.
pub open spec fn spyker_alias(s: Seq<char>) -> Option<Seq<char>> {
    if s == "whiskey peak"@ {
        Some("whisky peak"@)
    } else {
        None
    }
}

pub fn arc_alias(normalized: &str) -> (r: Option<&'static str>)
    ensures
        match r {
            Some(a) => spyker_alias(normalized@) == Some(a@),
            None => spyker_alias(normalized@) is None,
        },
{
    if str_eq_chars("whiskey peak", &chars_of(normalized)) {
        Some("whisky peak")
    } else {
        None
    }
}

/// First named season whose name, without its number prefix and
/// normalized, is `needle`, from index `i` on.
pub open spec fn season_named_from(
    seasons: Seq<crate::model::NamedSeasonView>,
    needle: Seq<char>,
    i: int,
) -> Option<u32>
    decreases seasons.len() - i,
{
    if i < 0 || i >= seasons.len() {
        None
    } else if matcher::normalize_arc_spec(strip_leading_number_spec(seasons[i].name)) == needle {
        Some(seasons[i].number)
    } else {
        season_named_from(seasons, needle, i + 1)
    }
}

/// The season number of a normalized arc name: the name as is, else its
/// known alternative spelling.
pub open spec fn season_for_arc_spec(series: crate::model::SeriesView, arc: Seq<char>) -> Option<u32> {
    match season_named_from(series.named_seasons, arc, 0) {
        Some(n) => Some(n),
        None => match spyker_alias(arc) {
            Some(a) => season_named_from(series.named_seasons, a, 0),
            None => None,
        },
    }
}

fn season_named(series: &Series, needle: &Vec<char>) -> (r: Option<u32>)
    ensures
        r == season_named_from(series@.named_seasons, needle@, 0),
{
    let ghost ns = series@.named_seasons;
    let mut i: usize = 0;
    while i < series.named_seasons.len()
        invariant
            i <= series.named_seasons@.len(),
            ns == series@.named_seasons,
            season_named_from(ns, needle@, 0) == season_named_from(ns, needle@, i as int),
        decreases series.named_seasons@.len() - i,
    {
        let ns_i = &series.named_seasons[i];
        assert(ns[i as int] == ns_i@);
        let stripped = strip_leading_number(ns_i.name.as_str());
        let norm = normalize_arc(stripped.as_str());
        if str_eq_chars(norm.as_str(), needle) {
            return Some(ns_i.number);
        }
        i = i + 1;
    }
    None
}

/// The season number the dataset gives an arc (by normalized name).
pub fn season_for_arc(series: &Series, arc_norm: &str) -> (r: Option<u32>)
    ensures
        r == season_for_arc_spec(series@, arc_norm@),
{
    let needle = chars_of(arc_norm);
    match season_named(series, &needle) {
        Some(n) => Some(n),
        None => match arc_alias(arc_norm) {
            Some(a) => season_named(series, &chars_of(a)),
            None => None,
        },
    }
}

} // verus!
