//! Domain types for One Pace metadata.

use vstd::prelude::*;

use crate::matcher::opt_view;

verus! {

#[derive(Debug, Clone)]
pub struct Series {
    pub title: String,
    pub showtitle: String,
    pub original_title: Option<String>,
    pub plot: String,
    pub named_seasons: Vec<NamedSeason>,
    /// Kodi/Jellyfin display-order hint written into tvshow.nfo (e.g.
    /// "absolute", "aired", "dvd"). `None` lets the media server use its
    /// default ("aired" for Jellyfin).
    pub display_order: Option<String>,
}

#[derive(Debug, Clone, PartialEq, Eq)]
pub struct NamedSeason {
    pub number: u32,
    pub name: String,
}

#[derive(Debug, Clone)]
pub struct Season {
    pub number: u32,
    pub title: String,
    pub plot: Option<String>,
}

#[derive(Debug, Clone)]
pub struct Episode {
    pub showtitle: String,
    pub season: u32,
    pub number: u32,
    pub title: String,
    pub plot: Option<String>,
    pub premiered: Option<String>,
    pub aired: Option<String>,
}

pub struct NamedSeasonView {
    pub number: u32,
    pub name: Seq<char>,
}

pub struct SeriesView {
    pub title: Seq<char>,
    pub showtitle: Seq<char>,
    pub original_title: Option<Seq<char>>,
    pub plot: Seq<char>,
    pub named_seasons: Seq<NamedSeasonView>,
    pub display_order: Option<Seq<char>>,
}

pub struct SeasonView {
    pub number: u32,
    pub title: Seq<char>,
    pub plot: Option<Seq<char>>,
}

pub struct EpisodeView {
    pub showtitle: Seq<char>,
    pub season: u32,
    pub number: u32,
    pub title: Seq<char>,
    pub plot: Option<Seq<char>>,
    pub premiered: Option<Seq<char>>,
    pub aired: Option<Seq<char>>,
}

impl View for NamedSeason {
    type V = NamedSeasonView;

    open spec fn view(&self) -> NamedSeasonView {
        NamedSeasonView { number: self.number, name: self.name@ }
    }
}

pub open spec fn named_views(v: Seq<NamedSeason>) -> Seq<NamedSeasonView> {
    v.map_values(|n: NamedSeason| n@)
}

impl View for Series {
    type V = SeriesView;

    open spec fn view(&self) -> SeriesView {
        SeriesView {
            title: self.title@,
            showtitle: self.showtitle@,
            original_title: opt_view(self.original_title),
            plot: self.plot@,
            named_seasons: named_views(self.named_seasons@),
            display_order: opt_view(self.display_order),
        }
    }
}

impl View for Season {
    type V = SeasonView;

    open spec fn view(&self) -> SeasonView {
        SeasonView { number: self.number, title: self.title@, plot: opt_view(self.plot) }
    }
}

impl View for Episode {
    type V = EpisodeView;

    open spec fn view(&self) -> EpisodeView {
        EpisodeView {
            showtitle: self.showtitle@,
            season: self.season,
            number: self.number,
            title: self.title@,
            plot: opt_view(self.plot),
            premiered: opt_view(self.premiered),
            aired: opt_view(self.aired),
        }
    }
}

} // verus!
