use std::cell::RefCell;
use std::rc::Rc;

use pacefinder::matcher::{ParsedFile, normalize_arc};
use pacefinder::model::{Episode, NamedSeason, Season, Series};
use pacefinder::source::composite::Composite;
use pacefinder::json::{Json, find_key, parse_json};
use pacefinder::source::onepacenet::{
    RscError, Segment, build_timeline, extract_releases, extract_segments, nonempty_segments,
    timeline_payload,
};
use pacefinder::source::sheet::{
    GvizCell, GvizCol, GvizRow, GvizTable, SheetError, SheetIndex, arc_alias as sheet_arc_alias,
    arc_tab_gids, cell_str, cell_value, extract_gids, find_col, jsonp_payload, normalize_release_date,
    parse_arc_table, parse_episode_number, pick_arc, synthesize_episode,
};
use pacefinder::source::spykernz::{
    GitHubTreeEntry, PathKind, build_index, classify_path, encode_path, raw_url, season_for_arc,
    strip_leading_number,
};
use pacefinder::source::{DataSource, ImageKind, choose_identity, identify_or_fallback};

// ---------- composite ----------

struct Stub {
    name: &'static str,
    series: Option<Series>,
    season: Option<Season>,
    episode: Option<Episode>,
    image: Option<Vec<u8>>,
    series_err: bool,
    crc: Option<(String, u32)>,
    calls: RefCell<Vec<&'static str>>,
}

impl Stub {
    fn empty(name: &'static str) -> Self {
        Self {
            name,
            series: None,
            season: None,
            episode: None,
            image: None,
            series_err: false,
            crc: None,
            calls: RefCell::new(Vec::new()),
        }
    }
    fn with_series(mut self, s: Series) -> Self {
        self.series = Some(s);
        self
    }
    fn failing_series(mut self) -> Self {
        self.series_err = true;
        self
    }
}

impl DataSource for Stub {
    fn name(&self) -> &'static str {
        self.name
    }
    fn series(&self) -> Result<Option<Series>, anyhow::Error> {
        self.calls.borrow_mut().push("series");
        if self.series_err {
            Err(anyhow::Error::msg("intentional"))
        } else {
            Ok(self.series.clone())
        }
    }
    fn season(&self, _: u32) -> Result<Option<Season>, anyhow::Error> {
        self.calls.borrow_mut().push("season");
        Ok(self.season.clone())
    }
    fn episode(&self, _: &str, _: u32) -> Result<Option<Episode>, anyhow::Error> {
        self.calls.borrow_mut().push("episode");
        Ok(self.episode.clone())
    }
    fn image(&self, _: ImageKind) -> Result<Option<Vec<u8>>, anyhow::Error> {
        self.calls.borrow_mut().push("image");
        Ok(self.image.clone())
    }
    fn identify_by_crc(&self, _: &str) -> Result<Option<(String, u32)>, anyhow::Error> {
        self.calls.borrow_mut().push("identify_by_crc");
        Ok(self.crc.clone())
    }
}

fn sample_series(title: &str) -> Series {
    Series {
        title: title.into(),
        showtitle: title.into(),
        original_title: None,
        plot: "x".into(),
        display_order: None,
        named_seasons: vec![NamedSeason { number: 1, name: "1. x".into() }],
    }
}

#[test]
fn first_some_wins_and_short_circuits() {
    let first = Rc::new(Stub::empty("first").with_series(sample_series("first wins")));
    let second = Rc::new(Stub::empty("second").with_series(sample_series("second")));
    let composite = Composite::new(vec![first.clone(), second.clone()]);
    let s = composite.series().unwrap().unwrap();
    assert_eq!(s.title, "first wins");
    assert_eq!(*first.calls.borrow(), vec!["series"]);
    assert!(second.calls.borrow().is_empty());
}

#[test]
fn none_falls_through_to_next() {
    let first = Rc::new(Stub::empty("empty"));
    let second = Rc::new(Stub::empty("loaded").with_series(sample_series("second")));
    let composite = Composite::new(vec![first.clone(), second.clone()]);
    let s = composite.series().unwrap().unwrap();
    assert_eq!(s.title, "second");
    assert_eq!(*first.calls.borrow(), vec!["series"]);
    assert_eq!(*second.calls.borrow(), vec!["series"]);
}

#[test]
fn err_is_logged_and_loop_continues() {
    let first = Rc::new(Stub::empty("broken").failing_series());
    let second = Rc::new(Stub::empty("ok").with_series(sample_series("from-fallback")));
    let composite = Composite::new(vec![first.clone(), second.clone()]);
    let s = composite.series().unwrap().unwrap();
    assert_eq!(s.title, "from-fallback");
    assert_eq!(*first.calls.borrow(), vec!["series"]);
    assert_eq!(*second.calls.borrow(), vec!["series"]);
}

#[test]
fn all_none_returns_none() {
    let first = Rc::new(Stub::empty("a"));
    let second = Rc::new(Stub::empty("b"));
    let composite = Composite::new(vec![first, second]);
    assert!(composite.series().unwrap().is_none());
    assert!(composite.season(1).unwrap().is_none());
    assert!(composite.episode("x", 1).unwrap().is_none());
    assert!(composite.image(ImageKind::SeriesPoster).unwrap().is_none());
}

fn parsed(arc: &str, ep: u32, crc: Option<&str>) -> ParsedFile {
    ParsedFile {
        arc: arc.into(),
        episode: ep,
        chapter_range: "1".into(),
        resolution: Some("1080p".into()),
        crc32: crc.map(|c| c.to_string()),
        extension: "mkv".into(),
        extended: false,
    }
}

#[test]
fn identity_prefers_crc_oracle() {
    let mut oracle = Stub::empty("sheet");
    oracle.crc = Some(("skypiea".to_string(), 3));
    let p = parsed("Sky Piea", 9, Some("ABCDEF01"));
    assert_eq!(identify_or_fallback(&oracle, &p), ("skypiea".to_string(), 3));
    let q = parsed("Sky Piea", 9, None);
    assert_eq!(identify_or_fallback(&oracle, &q), ("sky piea".to_string(), 9));
    assert_eq!(choose_identity(None, &p), ("sky piea".to_string(), 9));
    let silent = Stub::empty("none");
    assert_eq!(identify_or_fallback(&silent, &p), ("sky piea".to_string(), 9));
}

// ---------- onepace.net ----------

#[test]
fn extract_releases_uses_chunk_length_and_keeps_full_trackers() {
    let magnet_a = "magnet:?xt=urn:btih:aaaa\
                   &dn=%5BOne+Pace%5D%5B1%5D+Romance+Dawn+01+%5B1080p%5D%5BAAAAAAAA%5D.mkv\
                   &tr=http%3A%2F%2Ftracker.one%2Fannounce\
                   &tr=http%3A%2F%2Ftracker.two%2Fannounce";
    let magnet_b = "magnet:?xt=urn:btih:bbbb\
                   &dn=%5BOne+Pace%5D%5B2%5D+Orange+Town+01+%5B720p%5D%5BBBBBBBBB%5D.mkv\
                   &tr=http%3A%2F%2Ftracker.three%2Fannounce";
    let len_a = format!("{:x}", magnet_a.len());
    let len_b = format!("{:x}", magnet_b.len());
    let rsc = format!("11:T{len_a},{magnet_a}c2:T{len_b},{magnet_b}");
    let releases = extract_releases(&rsc);
    assert_eq!(releases.len(), 2);
    assert_eq!(releases[0].magnet, magnet_a, "first tracker preserved");
    assert_eq!(releases[1].magnet, magnet_b);
    assert_eq!(releases[0].magnet.matches("&tr=").count(), 2);
}

#[test]
fn extract_releases_empty_input() {
    assert!(extract_releases("").is_empty());
}

#[test]
fn extract_releases_dedupes_same_btih() {
    let m = "magnet:?xt=urn:btih:dup\
             &dn=%5BOne+Pace%5D%5B1%5D+Romance+Dawn+01+%5B1080p%5D%5BAAAAAAAA%5D.mkv";
    let len = format!("{:x}", m.len());
    let rsc = format!("11:T{len},{m}aa:T{len},{m}");
    let releases = extract_releases(&rsc);
    assert_eq!(releases.len(), 1);
}

#[test]
fn extract_releases_skips_chunk_overflow() {
    let rsc = "11:Tffff,magnet:?xt=urn:btih:abc&dn=x";
    let releases = extract_releases(rsc);
    assert!(releases.is_empty());
}

#[test]
fn extract_releases_picks_up_json_embedded_magnets() {
    let m = "magnet:?xt=urn:btih:json01\
             &dn=%5BOne+Pace%5D%5B1%5D+Romance+Dawn+01+%5B1080p%5D%5BJJJJJJJJ%5D.mkv";
    let rsc = format!(r#"{{"infoHref":"https://x","magnetHref":"{m}","other":"x"}}"#);
    let releases = extract_releases(&rsc);
    assert_eq!(releases.len(), 1);
    assert_eq!(releases[0].magnet, m);
}

#[test]
fn extract_releases_combines_both_formats_and_dedups() {
    let m = "magnet:?xt=urn:btih:both01\
             &dn=%5BOne+Pace%5D%5B1%5D+Romance+Dawn+01+%5B1080p%5D%5BBBBBBBBB%5D.mkv";
    let len = format!("{:x}", m.len());
    let rsc = format!(r#"11:T{len},{m}"magnetHref":"{m}""#);
    let releases = extract_releases(&rsc);
    assert_eq!(releases.len(), 1, "btih dedupes across formats");
}

#[test]
fn extract_releases_keeps_parseless_filename() {
    let m = "magnet:?xt=urn:btih:abc&dn=random-filename.mkv";
    let len = format!("{:x}", m.len());
    let rsc = format!("11:T{len},{m}");
    let releases = extract_releases(&rsc);
    assert_eq!(releases.len(), 1);
    assert!(releases[0].parsed.is_none());
}

#[test]
fn extract_releases_parses_the_display_name() {
    let m = "magnet:?xt=urn:btih:abc&dn=%5BOne+Pace%5D%5B1%5D+Romance+Dawn+01+%5B1080p%5D%5BAAAAAAAA%5D.mkv";
    let len = format!("{:x}", m.len());
    let releases = extract_releases(&format!("7:T{len},{m}"));
    assert_eq!(releases[0].filename, "[One Pace][1] Romance Dawn 01 [1080p][AAAAAAAA].mkv");
    assert_eq!(releases[0].parsed.as_ref().unwrap().arc, "Romance Dawn");
}

fn seg(title: &str, special: bool) -> Segment {
    Segment { title: title.into(), description: "d".into(), special }
}

#[test]
fn build_timeline_skips_specials_and_numbers_sequentially() {
    let tl = build_timeline(vec![seg("Romance Dawn", false), seg("Special", true), seg("Orange Town", false)]);
    assert_eq!(tl.seasons_by_number.len(), 2);
    assert_eq!(tl.seasons_by_number[0].0, 1);
    assert_eq!(tl.seasons_by_number[0].1.title, "Romance Dawn");
    assert_eq!(tl.seasons_by_number[1].0, 2);
    assert_eq!(tl.seasons_by_number[1].1.title, "Orange Town");
}

#[test]
fn timeline_season_is_titled_with_its_number() {
    let tl = build_timeline(vec![seg("Romance Dawn", false), seg("Special", true), seg("Orange Town", false)]);
    let s = tl.season(2).unwrap();
    assert_eq!(s.number, 2);
    assert_eq!(s.title, "2. Orange Town");
    assert_eq!(s.plot.as_deref(), Some("d"));
    assert!(tl.season(3).is_none());
    assert!(tl.season(0).is_none());
}

#[test]
fn timeline_payload_strips_hex_prefix() {
    let rsc = "0:[\"$\"]\n5:[\"$\",\"$L10\",null,{\"data\":{\"timeline\":{\"segments\":[]}}}]\r\n6:x";
    assert_eq!(
        timeline_payload(rsc).ok().as_deref(),
        Some("[\"$\",\"$L10\",null,{\"data\":{\"timeline\":{\"segments\":[]}}}]")
    );
    assert_eq!(timeline_payload("nothing here"), Err(RscError::NoTimelineLine));
    assert_eq!(timeline_payload("X:{\"timeline\":{\"segments\":[]}}"), Err(RscError::MissingPrefix));
    assert!(nonempty_segments(vec![]).is_err());
    assert_eq!(RscError::EmptySegments.message(), "onepace.net returned empty segment list");
}

// ---------- Google Sheet ----------

#[test]
fn date_normalizes_dotted_to_iso() {
    assert_eq!(normalize_release_date("2025.05.03").as_deref(), Some("2025-05-03"));
    assert_eq!(normalize_release_date("2023.6.12").as_deref(), Some("2023-06-12"));
    assert!(normalize_release_date("2025/05/03").is_none());
    assert!(normalize_release_date("not a date").is_none());
    assert!(normalize_release_date("").is_none());
    assert!(normalize_release_date("2025.13.01").is_none());
    assert!(normalize_release_date("2025.05.32").is_none());
}

#[test]
fn parse_episode_number_handles_multi_word_arcs() {
    assert_eq!(parse_episode_number("Skypiea 03"), Some(3));
    assert_eq!(parse_episode_number("Long Ring Long Land 02"), Some(2));
    assert_eq!(parse_episode_number("Wano 12"), Some(12));
    assert_eq!(parse_episode_number("No digits"), None);
    assert_eq!(parse_episode_number("Arc 12345 "), Some(345));
}

#[test]
fn pick_arc_falls_back_to_label_when_header_empty() {
    assert_eq!(pick_arc(Some(""), "Wano 01").as_deref(), Some("Wano"));
    assert_eq!(pick_arc(None, "Long Ring Long Land 04").as_deref(), Some("Long Ring Long Land"));
    assert_eq!(pick_arc(Some("Egghead"), "Egghead 02").as_deref(), Some("Egghead"));
    assert_eq!(pick_arc(None, "Wano 1234"), None);
    assert_eq!(pick_arc(None, "1 Wano 01"), None);
}

#[test]
fn extract_gids_dedupes_and_sorts() {
    let html = "stuff gid=0 more gid=12345 again gid=0 then gid=999";
    let gids = extract_gids(html);
    assert_eq!(gids, vec![0, 999, 12345]);
    assert_eq!(arc_tab_gids(&gids), vec![999, 12345]);
    assert_eq!(extract_gids("gid=99999999999 gid=x gid=7"), vec![7]);
}

#[test]
fn jsonp_envelope_is_unwrapped() {
    assert_eq!(
        jsonp_payload("/*O_o*/google.visualization.Query.setResponse({\"a\":1});").as_deref(),
        Some("{\"a\":1}")
    );
    assert_eq!(jsonp_payload("  cb({\"a\":(1)})  \n").as_deref(), Some("{\"a\":(1)}"));
    assert_eq!(jsonp_payload("no envelope"), None);
    assert_eq!(jsonp_payload("cb(x); trailing"), None);
}

fn cell(v: &str) -> Option<GvizCell> {
    Some(GvizCell { v: Some(v.to_string()), f: None })
}

fn col(label: &str) -> GvizCol {
    GvizCol { label: label.to_string() }
}

fn sample_table() -> GvizTable {
    GvizTable {
        cols: vec![
            col("Skypiea"),
            col("One Pace Episode"),
            col("Chapters"),
            col("Episodes"),
            col("Release Date"),
            col("Length"),
            col("MKV CRC32"),
            col("MKV CRC32 (Extended)"),
        ],
        rows: vec![
            GvizRow {
                c: vec![
                    None,
                    cell("Skypiea 01"),
                    cell("Ch. 237-238"),
                    cell("Ep. 153"),
                    cell("2023.06.12"),
                    cell("x"),
                    cell("ca5552fc"),
                    cell("DEADBEEF"),
                ],
            },
            GvizRow {
                c: vec![
                    None,
                    cell("Skypiea 02"),
                    cell("Ch. 239-240"),
                    cell("Ep. 154"),
                    cell("2023.07.01"),
                    cell("x"),
                    cell("ABCD1234"),
                    None,
                ],
            },
            GvizRow { c: vec![None, cell("   ")] },
        ],
    }
}

#[test]
fn arc_table_rows_and_crcs() {
    let rows = parse_arc_table(&sample_table()).ok().unwrap();
    assert_eq!(rows.len(), 2);
    let r0 = &rows[0];
    assert_eq!(r0.arc, "Skypiea");
    assert_eq!(r0.episode_label, "Skypiea 01");
    assert_eq!(r0.episode_number, 1);
    assert_eq!(r0.chapters, "Ch. 237-238");
    assert_eq!(r0.anime_episodes, "Ep. 153");
    assert_eq!(r0.release_date.as_deref(), Some("2023-06-12"));
    assert_eq!(r0.crcs, vec!["ca5552fc".to_string(), "DEADBEEF".to_string()]);
    assert_eq!(rows[1].crcs, vec!["ABCD1234".to_string()]);
}

#[test]
fn arc_table_without_crc_column_is_refused() {
    let t = GvizTable { cols: vec![col("Summary"), col("One Pace Episode")], rows: vec![] };
    assert_eq!(parse_arc_table(&t).err(), Some(SheetError::NoCrcColumn));
    let u = GvizTable { cols: vec![col("Summary")], rows: vec![] };
    assert_eq!(parse_arc_table(&u).err(), Some(SheetError::NoEpisodeColumn));
    assert_eq!(SheetError::NoCrcColumn.message(), "no MKV CRC32 column");
}

#[test]
fn cells_prefer_formatted_text() {
    let row = GvizRow {
        c: vec![
            Some(GvizCell { v: Some("153".into()), f: Some("Ep. 153".into()) }),
            Some(GvizCell { v: Some("7".into()), f: Some("".into()) }),
            Some(GvizCell { v: None, f: None }),
        ],
    };
    assert_eq!(cell_str(&row, 0).as_deref(), Some("Ep. 153"));
    assert_eq!(cell_str(&row, 1).as_deref(), Some("7"));
    assert_eq!(cell_str(&row, 2), None);
    assert_eq!(cell_str(&row, 9), None);
    assert_eq!(find_col(&vec![col(" A "), col("B"), col("A")], "A"), Some(0));
}

fn make_index() -> SheetIndex {
    let rows = parse_arc_table(&sample_table()).ok().unwrap();
    let mut idx = SheetIndex::new();
    idx.absorb(rows);
    idx.finalize();
    idx
}

#[test]
fn lookup_arc_ep_by_crc_finds_episodes() {
    let idx = make_index();
    assert_eq!(idx.lookup_arc_ep_by_crc("CA5552FC"), Some(("skypiea".to_string(), 1)));
    assert_eq!(idx.lookup_arc_ep_by_crc("ca5552fc"), Some(("skypiea".to_string(), 1)));
    assert_eq!(idx.lookup_arc_ep_by_crc("deadbeef"), Some(("skypiea".to_string(), 1)));
    assert_eq!(idx.lookup_arc_ep_by_crc("ABCD1234"), Some(("skypiea".to_string(), 2)));
    assert_eq!(idx.lookup_arc_ep_by_crc("FFFFFFFF"), None);
}

#[test]
fn episode_synthesizes_for_known_arc() {
    let idx = make_index();
    let ep = idx.episode("skypiea", 1).unwrap();
    assert_eq!(ep.title, "Skypiea 01");
    assert_eq!(ep.showtitle, "One Pace");
    assert_eq!(ep.season, 0);
    assert_eq!(ep.number, 1);
    let plot = ep.plot.unwrap();
    assert_eq!(plot, "Manga: Ch. 237-238. Original anime: Ep. 153. Released 2023-06-12.");
    assert_eq!(ep.premiered.as_deref(), Some("2023-06-12"));
    assert_eq!(ep.aired.as_deref(), Some("2023-06-12"));
    assert!(idx.episode("skypiea", 3).is_none());
}

#[test]
fn episode_returns_none_for_unknown_arc() {
    let idx = make_index();
    assert!(!idx.has_arc("nope"));
    assert!(idx.episode("nope", 1).is_none());
}

#[test]
fn normalize_arc_used_consistently() {
    let idx = make_index();
    assert!(idx.has_arc(&normalize_arc("Skypiea")));
    assert_eq!(idx.lookup_arc_ep_by_crc("CA5552FC").unwrap().0, normalize_arc("Skypiea"));
}

#[test]
fn sheet_aliases_redirect_lookups() {
    assert_eq!(sheet_arc_alias("arabasta"), Some("alabasta"));
    assert_eq!(sheet_arc_alias("wano act 1"), Some("wano"));
    assert_eq!(sheet_arc_alias("wano"), None);
    let t = GvizTable {
        cols: vec![col("Wano"), col("One Pace Episode"), col("MKV CRC32")],
        rows: vec![GvizRow { c: vec![None, cell("Wano 01"), cell("11111111")] }],
    };
    let mut idx = SheetIndex::new();
    idx.absorb(parse_arc_table(&t).ok().unwrap());
    idx.finalize();
    assert_eq!(idx.episode("wano act 1", 1).unwrap().title, "Wano 01");
}

#[test]
fn sheet_lookup_tries_the_name_as_written_first() {
    let t = GvizTable {
        cols: vec![col("Arabasta"), col("One Pace Episode"), col("MKV CRC32")],
        rows: vec![GvizRow { c: vec![None, cell("Arabasta 01"), cell("22222222")] }],
    };
    let mut idx = SheetIndex::new();
    idx.absorb(parse_arc_table(&t).ok().unwrap());
    idx.finalize();
    assert_eq!(idx.episode("arabasta", 1).unwrap().title, "Arabasta 01");
    assert!(idx.episode("arabasta", 2).is_none());
    assert!(idx.episode("alabasta", 1).is_none());
}

#[test]
fn finalize_sorts_each_arc_stably() {
    let t = GvizTable {
        cols: vec![col("Wano"), col("One Pace Episode"), col("Chapters"), col("MKV CRC32")],
        rows: vec![
            GvizRow { c: vec![None, cell("Wano 02"), cell("first two"), cell("A")] },
            GvizRow { c: vec![None, cell("Wano 01"), cell("one"), cell("B")] },
            GvizRow { c: vec![None, cell("Wano 02"), cell("second two"), cell("C")] },
        ],
    };
    let mut idx = SheetIndex::new();
    idx.absorb(parse_arc_table(&t).ok().unwrap());
    idx.finalize();
    let es = idx.arc_entries("wano");
    let nums: Vec<u32> = es.iter().map(|e| e.episode_number).collect();
    assert_eq!(nums, vec![1, 2, 2]);
    assert_eq!(es[1].chapters, "first two");
    assert_eq!(es[2].chapters, "second two");
    assert_eq!(synthesize_episode(&es[0]).plot.as_deref(), Some("Manga: one. Original anime: ."));
}

#[test]
fn later_rows_take_over_a_crc() {
    let t = GvizTable {
        cols: vec![col("Wano"), col("One Pace Episode"), col("MKV CRC32")],
        rows: vec![
            GvizRow { c: vec![None, cell("Wano 01"), cell("abc")] },
            GvizRow { c: vec![None, cell("Wano 02"), cell("ABC")] },
        ],
    };
    let mut idx = SheetIndex::new();
    idx.absorb(parse_arc_table(&t).ok().unwrap());
    assert_eq!(idx.lookup_arc_ep_by_crc("Abc"), Some(("wano".to_string(), 2)));
}

// ---------- SpykerNZ ----------

fn entry(path: &str) -> GitHubTreeEntry {
    GitHubTreeEntry { path: path.to_string(), kind: "blob".into() }
}

#[test]
fn index_classifies_all_known_paths() {
    let entries = vec![
        entry("One Pace/tvshow.nfo"),
        entry("One Pace/poster.png"),
        entry("One Pace/season01-poster.png"),
        entry("One Pace/season02-poster.png"),
        entry("One Pace/Season 1/season.nfo"),
        entry("One Pace/Season 1/One Pace - S01E01 - Romance Dawn, the Dawn of an Adventure.nfo"),
        entry("One Pace/Season 1/One Pace - S01E02 - They Call Him 'Straw Hat' Luffy.nfo"),
        entry("One Pace/Season 2/season.nfo"),
        entry("README.md"),
    ];
    let idx = build_index(&entries);
    assert_eq!(idx.series_nfo.as_deref(), Some("One Pace/tvshow.nfo"));
    assert_eq!(idx.series_poster.as_deref(), Some("One Pace/poster.png"));
    assert_eq!(idx.seasons.len(), 2);
    let s1 = idx.seasons.get(&1).unwrap();
    assert!(s1.season_nfo.is_some());
    assert!(s1.season_poster.is_some());
    assert_eq!(s1.episodes.len(), 2);
    assert!(s1.episodes.contains_key(&1));
    assert!(s1.episodes.contains_key(&2));
    let s2 = idx.seasons.get(&2).unwrap();
    assert!(s2.season_nfo.is_some());
    assert_eq!(s2.season_poster.as_deref(), Some("One Pace/season02-poster.png"));
    assert!(s2.episodes.is_empty());
    assert_eq!(idx.season_nfo_path(1).as_deref(), Some("One Pace/Season 1/season.nfo"));
    assert!(idx.episode_nfo_path(1, 2).unwrap().ends_with("Luffy.nfo"));
    assert_eq!(idx.episode_nfo_path(2, 1), None);
    assert_eq!(idx.image_path(ImageKind::SeasonPoster { number: 1 }).as_deref(), Some("One Pace/season01-poster.png"));
    assert_eq!(idx.image_path(ImageKind::SeriesPoster).as_deref(), Some("One Pace/poster.png"));
}

#[test]
fn ignores_tree_entries() {
    let entries = vec![GitHubTreeEntry { path: "One Pace".into(), kind: "tree".into() }];
    assert!(build_index(&entries).series_nfo.is_none());
}

#[test]
fn encode_path_quotes_spaces_only() {
    assert_eq!(encode_path("One Pace/Season 1/season.nfo"), "One%20Pace/Season%201/season.nfo");
    assert_eq!(
        raw_url("One Pace/tvshow.nfo"),
        "https://raw.githubusercontent.com/SpykerNZ/one-pace-for-plex/main/One%20Pace/tvshow.nfo"
    );
}

#[test]
fn strip_leading_number_drops_dotted_prefix() {
    assert_eq!(strip_leading_number("1. Romance Dawn"), "Romance Dawn");
    assert_eq!(strip_leading_number("plain"), "plain");
}

#[test]
fn paths_with_unparsable_numbers_land_in_slot_zero() {
    assert_eq!(classify_path("One Pace/Season \u{661}/season.nfo"), PathKind::SeasonNfo(0));
    assert_eq!(classify_path("One Pace/Season 99999999999/season.nfo"), PathKind::SeasonNfo(0));
    assert_eq!(classify_path("One Pace/season3-poster.PNG"), PathKind::Other);
    assert_eq!(classify_path("One Pace/Season 1/One Pace - S01E07 - .nfo"), PathKind::Other);
    assert_eq!(classify_path("One Pace/Season 1/One Pace - S01E07 - x.nfo"), PathKind::EpisodeNfo(1, 7));
}

#[test]
fn season_lookup_uses_aliases() {
    let series = Series {
        title: "One Pace".into(),
        showtitle: "One Pace".into(),
        original_title: None,
        plot: "p".into(),
        display_order: None,
        named_seasons: vec![
            NamedSeason { number: 1, name: "1. Romance Dawn".into() },
            NamedSeason { number: 5, name: "5. Whisky Peak".into() },
        ],
    };
    assert_eq!(season_for_arc(&series, "romance dawn"), Some(1));
    assert_eq!(season_for_arc(&series, "whiskey peak"), Some(5));
    assert_eq!(season_for_arc(&series, "egghead"), None);
}

// ---------- fetched text through the library, JSON decoded by hand ----------

fn gviz_table_of(v: &serde_json::Value) -> GvizTable {
    let table = &v["table"];
    let cols = table["cols"]
        .as_array()
        .unwrap()
        .iter()
        .map(|c| GvizCol { label: c["label"].as_str().unwrap_or_default().to_string() })
        .collect();
    let rows = table["rows"]
        .as_array()
        .unwrap()
        .iter()
        .map(|r| GvizRow {
            c: r["c"]
                .as_array()
                .map(|cells| {
                    cells
                        .iter()
                        .map(|c| {
                            if c.is_null() {
                                None
                            } else {
                                let v = match &c["v"] {
                                    serde_json::Value::String(s) => Some(s.clone()),
                                    serde_json::Value::Null => None,
                                    other => Some(other.to_string()),
                                };
                                Some(GvizCell { v, f: c["f"].as_str().map(str::to_string) })
                            }
                        })
                        .collect()
                })
                .unwrap_or_default(),
        })
        .collect();
    GvizTable { cols, rows }
}

fn parse_arc_tab_text(body: &str) -> Result<Vec<pacefinder::source::sheet::ParsedRow>, String> {
    let json = jsonp_payload(body).ok_or_else(|| SheetError::NotJsonp.message())?;
    let v: serde_json::Value = serde_json::from_str(&json).map_err(|e| e.to_string())?;
    parse_arc_table(&gviz_table_of(&v)).map_err(|e| e.message())
}

fn sample_jsonp() -> String {
    let json = r#"{
        "table": {
            "cols": [
                {"label": "Skypiea"},
                {"label": "One Pace Episode"},
                {"label": "Chapters"},
                {"label": "Episodes"},
                {"label": "Release Date"},
                {"label": "Length"},
                {"label": "MKV CRC32"},
                {"label": "MKV CRC32 (Extended)"}
            ],
            "rows": [
                {"c": [
                    null,
                    {"v": "Skypiea 01"},
                    {"v": "Ch. 237-238"},
                    {"v": "Ep. 153"},
                    {"v": "2023.06.12"},
                    {"v": "x"},
                    {"v": "ca5552fc"},
                    {"v": "DEADBEEF"}
                ]},
                {"c": [
                    null,
                    {"v": "Skypiea 02"},
                    {"v": "Ch. 239-240"},
                    {"v": "Ep. 154"},
                    {"v": "2023.07.01"},
                    {"v": "x"},
                    {"v": "ABCD1234"},
                    null
                ]}
            ]
        }
    }"#;
    format!("/*O_o*/google.visualization.Query.setResponse({json});")
}

#[test]
fn parse_arc_tab_extracts_rows_and_crcs() {
    let rows = parse_arc_tab_text(&sample_jsonp()).unwrap();
    assert_eq!(rows.len(), 2);

    let r0 = &rows[0];
    assert_eq!(r0.arc, "Skypiea");
    assert_eq!(r0.episode_label, "Skypiea 01");
    assert_eq!(r0.episode_number, 1);
    assert_eq!(r0.chapters, "Ch. 237-238");
    assert_eq!(r0.anime_episodes, "Ep. 153");
    assert_eq!(r0.release_date.as_deref(), Some("2023-06-12"));
    assert_eq!(r0.crcs.len(), 2);
    assert!(r0.crcs.iter().any(|c| c.eq_ignore_ascii_case("ca5552fc")));
    assert!(r0.crcs.iter().any(|c| c.eq_ignore_ascii_case("deadbeef")));

    let r1 = &rows[1];
    assert_eq!(r1.episode_number, 2);
    assert_eq!(r1.crcs, vec!["ABCD1234".to_string()]);
}

#[test]
fn parse_arc_tab_rejects_payload_without_crc_column() {
    let json = r#"{
        "table": {
            "cols": [
                {"label": "Summary"},
                {"label": "One Pace Episode"}
            ],
            "rows": []
        }
    }"#;
    let body = format!("/*O_o*/google.visualization.Query.setResponse({json});");
    assert!(parse_arc_tab_text(&body).is_err());
}

#[test]
fn extract_segments_parses_real_shape() {
    let rsc = "5:[\"$\",\"$L10\",null,{\"data\":{\"timeline\":{\"segments\":[\
        {\"title\":\"Romance Dawn\",\"description\":\"Luffy.\",\"special\":false},\
        {\"title\":\"Foo\",\"description\":\"x.\",\"special\":true}\
        ]}}}]";
    let segs = extract_segments(rsc).unwrap();
    assert_eq!(segs.len(), 2);
    assert_eq!(segs[0].title, "Romance Dawn");
    assert!(!segs[0].special);
    assert!(segs[1].special);
}

#[test]
fn find_segments_locates_nested_key() {
    let v = parse_json(
        r#"{"data":{"timeline":{"segments":[{"title":"x","description":"d","special":false}]}}}"#,
    )
    .unwrap();
    assert!(find_key(&v, "segments").is_some());
}

#[test]
fn find_segments_none_when_absent() {
    let v = parse_json(r#"{"data":{"unrelated":42}}"#).unwrap();
    assert!(find_key(&v, "segments").is_none());
}

#[test]
fn find_segments_finds_in_array_of_objects() {
    let v = parse_json(
        r#"[{"x":1},{"segments":[{"title":"a","description":"b","special":false}]}]"#,
    )
    .unwrap();
    assert!(find_key(&v, "segments").is_some());
}

#[test]
fn segment_search_follows_the_stack_order_and_reports_each_failure() {
    // The later sibling is searched first; an object's own key wins over its children.
    let v = parse_json(r#"[{"segments":1},{"segments":2,"z":{"segments":3}}]"#).unwrap();
    assert!(matches!(find_key(&v, "segments"), Some(Json::Number(n)) if n == "2"));
    assert!(matches!(extract_segments("nothing"), Err(RscError::NoTimelineLine)));
    assert!(matches!(extract_segments(r#"5:{"timeline":1,"segments":"#), Err(RscError::BadJson)));
    assert!(matches!(extract_segments(r#"5:{"timeline":1,"segments":[]}"#), Err(RscError::EmptySegments)));
    assert!(matches!(extract_segments(r#"5:{"timeline":1,"segments":[1]}"#), Err(RscError::BadSegments)));
    let tuple = extract_segments(r#"5:{"timeline":1,"segments":[["A","B",true]]}"#).unwrap();
    assert_eq!((tuple[0].title.as_str(), tuple[0].special), ("A", true));
}

#[test]
fn cell_values_read_from_their_json_text() {
    assert_eq!(cell_value("null"), None);
    assert_eq!(cell_value("\"Ep. 3\""), Some("Ep. 3".to_string()));
    assert_eq!(cell_value("153.0"), Some("153.0".to_string()));
    assert_eq!(cell_value("true"), Some("true".to_string()));
    assert_eq!(cell_value("false"), Some("false".to_string()));
    assert_eq!(cell_value("[1,\"a\"]"), Some("[1,\"a\"]".to_string()));
    assert_eq!(cell_value("{\"k\":1}"), Some("{\"k\":1}".to_string()));
}
