//! Kodi NFO XML shapes for the three media kinds: `<tvshow>`, `<season>`,
//! `<episodedetails>`. These types are close to the wire format; the
//! conversions to and from the domain types live here.

use vstd::prelude::*;

use crate::matcher::{clone_opt_string, opt_view};
use crate::model::{Episode, EpisodeView, NamedSeason, NamedSeasonView, Season, SeasonView,
    Series, SeriesView, named_views};

verus! {

// ---------- tvshow.nfo ----------

#[derive(Debug, Clone)]
pub struct KodiTvShow {
    /// Jellyfin honors `<lockdata>true</lockdata>` by skipping provider
    /// refresh for this item.
    pub lockdata: Option<bool>,
    pub title: String,
    pub showtitle: String,
    pub originaltitle: Option<String>,
    pub plot: String,
    /// `<displayorder>`: series-level episode ordering.
    pub displayorder: Option<String>,
    pub namedseasons: Vec<KodiNamedSeason>,
}

#[derive(Debug, Clone)]
pub struct KodiNamedSeason {
    pub number: u32,
    pub name: String,
}

// ---------- season.nfo ----------

#[derive(Debug, Clone)]
pub struct KodiSeason {
    pub lockdata: Option<bool>,
    pub title: String,
    pub seasonnumber: u32,
    pub plot: Option<String>,
}

// ---------- episodedetails.nfo ----------

#[derive(Debug, Clone)]
pub struct KodiEpisode {
    pub lockdata: Option<bool>,
    pub title: String,
    pub showtitle: String,
    pub season: u32,
    pub episode: u32,
    pub plot: Option<String>,
    pub premiered: Option<String>,
    pub aired: Option<String>,
}

pub struct KodiTvShowView {
    pub lockdata: Option<bool>,
    pub title: Seq<char>,
    pub showtitle: Seq<char>,
    pub originaltitle: Option<Seq<char>>,
    pub plot: Seq<char>,
    pub displayorder: Option<Seq<char>>,
    pub namedseasons: Seq<NamedSeasonView>,
}

pub struct KodiSeasonView {
    pub lockdata: Option<bool>,
    pub title: Seq<char>,
    pub seasonnumber: u32,
    pub plot: Option<Seq<char>>,
}

pub struct KodiEpisodeView {
    pub lockdata: Option<bool>,
    pub title: Seq<char>,
    pub showtitle: Seq<char>,
    pub season: u32,
    pub episode: u32,
    pub plot: Option<Seq<char>>,
    pub premiered: Option<Seq<char>>,
    pub aired: Option<Seq<char>>,
}

pub open spec fn kodi_named_views(v: Seq<KodiNamedSeason>) -> Seq<NamedSeasonView> {
    v.map_values(|n: KodiNamedSeason| NamedSeasonView { number: n.number, name: n.name@ })
}

impl View for KodiTvShow {
    type V = KodiTvShowView;

    open spec fn view(&self) -> KodiTvShowView {
        KodiTvShowView {
            lockdata: self.lockdata,
            title: self.title@,
            showtitle: self.showtitle@,
            originaltitle: opt_view(self.originaltitle),
            plot: self.plot@,
            displayorder: opt_view(self.displayorder),
            namedseasons: kodi_named_views(self.namedseasons@),
        }
    }
}

impl View for KodiSeason {
    type V = KodiSeasonView;

    open spec fn view(&self) -> KodiSeasonView {
        KodiSeasonView {
            lockdata: self.lockdata,
            title: self.title@,
            seasonnumber: self.seasonnumber,
            plot: opt_view(self.plot),
        }
    }
}

impl View for KodiEpisode {
    type V = KodiEpisodeView;

    open spec fn view(&self) -> KodiEpisodeView {
        KodiEpisodeView {
            lockdata: self.lockdata,
            title: self.title@,
            showtitle: self.showtitle@,
            season: self.season,
            episode: self.episode,
            plot: opt_view(self.plot),
            premiered: opt_view(self.premiered),
            aired: opt_view(self.aired),
        }
    }
}

// ---------- conversions on views ----------

/// The domain series a `<tvshow>` describes (`lockdata` is dropped).
pub open spec fn series_of(k: KodiTvShowView) -> SeriesView {
    SeriesView {
        title: k.title,
        showtitle: k.showtitle,
        original_title: k.originaltitle,
        plot: k.plot,
        named_seasons: k.namedseasons,
        display_order: k.displayorder,
    }
}

/// The `<tvshow>` written for a series, without `lockdata`.
pub open spec fn tvshow_of(s: SeriesView) -> KodiTvShowView {
    KodiTvShowView {
        lockdata: None,
        title: s.title,
        showtitle: s.showtitle,
        originaltitle: s.original_title,
        plot: s.plot,
        displayorder: s.display_order,
        namedseasons: s.named_seasons,
    }
}

pub open spec fn season_of(k: KodiSeasonView) -> SeasonView {
    SeasonView { number: k.seasonnumber, title: k.title, plot: k.plot }
}

pub open spec fn kodi_season_of(s: SeasonView) -> KodiSeasonView {
    KodiSeasonView { lockdata: None, title: s.title, seasonnumber: s.number, plot: s.plot }
}

pub open spec fn episode_of(k: KodiEpisodeView) -> EpisodeView {
    EpisodeView {
        showtitle: k.showtitle,
        season: k.season,
        number: k.episode,
        title: k.title,
        plot: k.plot,
        premiered: k.premiered,
        aired: k.aired,
    }
}

pub open spec fn kodi_episode_of(e: EpisodeView) -> KodiEpisodeView {
    KodiEpisodeView {
        lockdata: None,
        title: e.title,
        showtitle: e.showtitle,
        season: e.season,
        episode: e.number,
        plot: e.plot,
        premiered: e.premiered,
        aired: e.aired,
    }
}

/// Writing a series as a `<tvshow>` and reading it back gives the same
/// series.
pub proof fn series_round_trip(s: SeriesView)
    ensures
        series_of(tvshow_of(s)) == s,
{
}

/// Writing a season as a `<season>` and reading it back gives the same
/// season.
pub proof fn season_round_trip(s: SeasonView)
    ensures
        season_of(kodi_season_of(s)) == s,
{
}

/// Writing an episode as `<episodedetails>` and reading it back gives
/// the same episode.
pub proof fn episode_round_trip(e: EpisodeView)
    ensures
        episode_of(kodi_episode_of(e)) == e,
{
}

/// A `<tvshow>` read into the domain and written back is unchanged but
/// for `lockdata`, which the domain does not carry.
pub proof fn tvshow_round_trip(k: KodiTvShowView)
    ensures
        tvshow_of(series_of(k)) == (KodiTvShowView { lockdata: None, ..k }),
{
}

// ---------- conversions ----------

impl Series {
    pub fn from_kodi(k: &KodiTvShow) -> (r: Series)
        ensures
            r@ == series_of(k@),
    {
        let mut named: Vec<NamedSeason> = Vec::new();
        let mut i: usize = 0;
        while i < k.namedseasons.len()
            invariant
                i <= k.namedseasons@.len(),
                named_views(named@) == kodi_named_views(k.namedseasons@.subrange(0, i as int)),
            decreases k.namedseasons@.len() - i,
        {
            let ns = &k.namedseasons[i];
            let ghost before = named_views(named@);
            named.push(NamedSeason { number: ns.number, name: ns.name.clone() });
            assert(named_views(named@) =~= before.push(NamedSeasonView { number: ns.number, name: ns.name@ }));
            i = i + 1;
            assert(k.namedseasons@.subrange(0, i as int) == k.namedseasons@.subrange(0, i - 1).push(*ns));
        }
        assert(k.namedseasons@.subrange(0, k.namedseasons@.len() as int) == k.namedseasons@);
        Series {
            title: k.title.clone(),
            showtitle: k.showtitle.clone(),
            original_title: clone_opt_string(&k.originaltitle),
            plot: k.plot.clone(),
            display_order: clone_opt_string(&k.displayorder),
            named_seasons: named,
        }
    }
}

impl KodiTvShow {
    pub fn from_series(s: &Series) -> (r: KodiTvShow)
        ensures
            r@ == tvshow_of(s@),
    {
        let mut named: Vec<KodiNamedSeason> = Vec::new();
        let mut i: usize = 0;
        while i < s.named_seasons.len()
            invariant
                i <= s.named_seasons@.len(),
                kodi_named_views(named@) == named_views(s.named_seasons@.subrange(0, i as int)),
            decreases s.named_seasons@.len() - i,
        {
            let ns = &s.named_seasons[i];
            let ghost before = kodi_named_views(named@);
            named.push(KodiNamedSeason { number: ns.number, name: ns.name.clone() });
            assert(kodi_named_views(named@) =~= before.push(NamedSeasonView { number: ns.number, name: ns.name@ }));
            i = i + 1;
            assert(s.named_seasons@.subrange(0, i as int) == s.named_seasons@.subrange(0, i - 1).push(*ns));
        }
        assert(s.named_seasons@.subrange(0, s.named_seasons@.len() as int) == s.named_seasons@);
        KodiTvShow {
            lockdata: None,
            title: s.title.clone(),
            showtitle: s.showtitle.clone(),
            originaltitle: clone_opt_string(&s.original_title),
            plot: s.plot.clone(),
            displayorder: clone_opt_string(&s.display_order),
            namedseasons: named,
        }
    }
}

impl Season {
    pub fn from_kodi(k: &KodiSeason) -> (r: Season)
        ensures
            r@ == season_of(k@),
    {
        Season { number: k.seasonnumber, title: k.title.clone(), plot: clone_opt_string(&k.plot) }
    }
}

impl KodiSeason {
    pub fn from_season(s: &Season) -> (r: KodiSeason)
        ensures
            r@ == kodi_season_of(s@),
    {
        KodiSeason {
            lockdata: None,
            title: s.title.clone(),
            seasonnumber: s.number,
            plot: clone_opt_string(&s.plot),
        }
    }
}

impl Episode {
    pub fn from_kodi(k: &KodiEpisode) -> (r: Episode)
        ensures
            r@ == episode_of(k@),
    {
        Episode {
            showtitle: k.showtitle.clone(),
            season: k.season,
            number: k.episode,
            title: k.title.clone(),
            plot: clone_opt_string(&k.plot),
            premiered: clone_opt_string(&k.premiered),
            aired: clone_opt_string(&k.aired),
        }
    }
}

impl KodiEpisode {
    pub fn from_episode(e: &Episode) -> (r: KodiEpisode)
        ensures
            r@ == kodi_episode_of(e@),
    {
        KodiEpisode {
            lockdata: None,
            title: e.title.clone(),
            showtitle: e.showtitle.clone(),
            season: e.season,
            episode: e.number,
            plot: clone_opt_string(&e.plot),
            premiered: clone_opt_string(&e.premiered),
            aired: clone_opt_string(&e.aired),
        }
    }
}

/// The `<lockdata>` an NFO carries: `true` when locked, absent otherwise.
pub fn lockdata_for(lock: bool) -> (r: Option<bool>)
    ensures
        r == (if lock {
            Some(true)
        } else {
            None
        }),
{
    if lock {
        Some(true)
    } else {
        None
    }
}

} // verus!
