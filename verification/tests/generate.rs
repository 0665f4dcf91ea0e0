use pacefinder::cli::{LockMode, lock_targets};
use pacefinder::generate::{
    LookupOutcome, plan_episode_assets, plan_lookup,
    Asset, ConflictPolicy, MarkerStatus, WriteStatus, answer_is_yes, classify, conflict_policy,
    conflict_preview, layout_warning, match_files, partition_writes, pick_winning_files,
    plan_episode, same_poster, season_writes, series_writes,
};
use pacefinder::matcher::ParsedFile;
use pacefinder::model::{Episode, Season, Series};
use pacefinder::source::{DataSource, ImageKind};

fn entry(path: &str, arc: &str, ep: u32, extended: bool) -> (String, ParsedFile) {
    (
        path.to_string(),
        ParsedFile {
            arc: arc.into(),
            episode: ep,
            chapter_range: "1".into(),
            crc32: None,
            resolution: Some("1080p".into()),
            extension: "mkv".into(),
            extended,
        },
    )
}

#[test]
fn pick_winning_files_extended_supersedes_regular() {
    let matched = vec![
        entry("/lib/arc/regular.mkv", "Arlong Park", 5, false),
        entry("/lib/arc/extended.mkv", "Arlong Park", 5, true),
    ];
    let winners = pick_winning_files(&matched);
    assert_eq!(winners.len(), 1);
    assert!(winners[0].1.extended);
}

#[test]
fn pick_winning_files_keeps_unpaired_regular() {
    let matched = vec![entry("/lib/arc/r.mkv", "Wano", 1, false)];
    let winners = pick_winning_files(&matched);
    assert_eq!(winners.len(), 1);
    assert!(!winners[0].1.extended);
}

#[test]
fn pick_winning_files_distinct_episodes_independent() {
    let matched = vec![entry("/lib/wano/r1.mkv", "Wano", 1, false), entry("/lib/wano/r2.mkv", "Wano", 2, false)];
    let winners = pick_winning_files(&matched);
    assert_eq!(winners.len(), 2);
}

#[test]
fn pick_winning_files_pairs_via_normalized_arc() {
    let matched = vec![
        entry("/lib/x/r.mkv", "arlong park", 5, false),
        entry("/lib/y/e.mkv", "Arlong Park", 5, true),
    ];
    let winners = pick_winning_files(&matched);
    assert_eq!(winners.len(), 1);
    assert!(winners[0].1.extended);
}

#[test]
fn pick_winning_files_keeps_first_of_same_variant() {
    let matched = vec![
        entry("/lib/a.mkv", "Wano", 1, false),
        entry("/lib/b.mkv", "Wano", 1, false),
        entry("/lib/c.mkv", "Wano", 1, true),
        entry("/lib/d.mkv", "Wano", 1, true),
    ];
    let winners = pick_winning_files(&matched);
    assert_eq!(winners.len(), 1);
    assert_eq!(winners[0].0, "/lib/c.mkv");
}

#[test]
fn match_files_keeps_one_pace_videos_in_path_order() {
    let files = vec![
        "/lib/b/[One Pace][1] Romance Dawn 02 [1080p][AAAAAAAA].mkv".to_string(),
        "/lib/a/[One Pace][1] Romance Dawn 01 [1080p][BBBBBBBB].mkv".to_string(),
        "/lib/a/notes.txt".to_string(),
        "/lib/a/holiday.mp4".to_string(),
    ];
    let (matched, total) = match_files(&files);
    assert_eq!(total, 3);
    assert_eq!(matched.len(), 2);
    assert_eq!(matched[0].1.episode, 1);
    assert_eq!(matched[1].1.episode, 2);
}

#[test]
fn match_files_orders_by_components() {
    let files = vec![
        "/lib/a b/[One Pace][1] Romance Dawn 01 [1080p][AAAAAAAA].mkv".to_string(),
        "/lib/a/[One Pace][1] Romance Dawn 02 [1080p][BBBBBBBB].mkv".to_string(),
    ];
    let (matched, _) = match_files(&files);
    assert_eq!(matched[0].1.episode, 2);
}

fn episode() -> Episode {
    Episode {
        showtitle: "One Pace".into(),
        season: 8,
        number: 5,
        title: "Arlong Park 05".into(),
        plot: None,
        premiered: None,
        aired: None,
    }
}

#[test]
fn plan_episode_writes_next_to_media() {
    let (w, folder) = plan_episode("/lib", "/lib/arc/ep.mkv", true, episode(), 2, 10, true);
    assert_eq!(w.path, "/lib/arc/ep.nfo");
    assert_eq!(w.label, "S08E05 (3/10)");
    match w.kind {
        Asset::EpisodeNfo { episode, lock } => {
            assert_eq!(episode.title, "Arlong Park 05 (Extended)");
            assert!(lock);
        },
        _ => panic!("wrong asset"),
    }
    assert_eq!(folder, Some((8, "/lib/arc".to_string())));
    let (_, none) = plan_episode("/lib", "/lib/ep.mkv", false, episode(), 0, 1, false);
    assert_eq!(none, None);
}

#[test]
fn layout_warning_needs_two_arc_folders() {
    let dirs = vec![
        "[One Pace][1-7] Romance Dawn [1080p]".to_string(),
        "[One Pace][8-21] Orange Town [1080p]".to_string(),
        "misc".to_string(),
    ];
    assert_eq!(layout_warning("library", &dirs), Some(2));
    assert_eq!(layout_warning("One Pace", &dirs), None);
    assert_eq!(layout_warning("library", &dirs[..1].to_vec()), None);
}

#[test]
fn classify_covers_every_status() {
    assert_eq!(classify(false, false, MarkerStatus::Absent, false), WriteStatus::Fresh);
    assert_eq!(classify(true, false, MarkerStatus::Absent, false), WriteStatus::Fresh);
    assert_eq!(classify(false, true, MarkerStatus::IntactOurs, false), WriteStatus::UpdateOurs);
    assert_eq!(classify(false, true, MarkerStatus::EditedOurs, false), WriteStatus::UserEdited);
    assert_eq!(classify(false, true, MarkerStatus::Absent, false), WriteStatus::ForeignNfo);
    assert_eq!(classify(true, true, MarkerStatus::Absent, true), WriteStatus::PosterUnchanged);
    assert_eq!(classify(true, true, MarkerStatus::Absent, false), WriteStatus::PosterDiffers);
}

#[test]
fn partition_splits_statuses() {
    let st = vec![
        WriteStatus::Fresh,
        WriteStatus::ForeignNfo,
        WriteStatus::PosterUnchanged,
        WriteStatus::UpdateOurs,
        WriteStatus::PosterDiffers,
    ];
    let (safe, unchanged, conflicts) = partition_writes(&st);
    assert_eq!(safe, vec![0, 3]);
    assert_eq!(unchanged, 1);
    assert_eq!(conflicts, vec![1, 4]);
}

#[test]
fn conflict_policy_precedence() {
    assert_eq!(conflict_policy(true, true, true, true), ConflictPolicy::Report);
    assert_eq!(conflict_policy(false, true, true, false), ConflictPolicy::Overwrite);
    assert_eq!(conflict_policy(false, false, true, false), ConflictPolicy::Skip);
    assert_eq!(conflict_policy(false, false, false, false), ConflictPolicy::Refuse);
    assert_eq!(conflict_policy(false, false, false, true), ConflictPolicy::Ask);
    assert_eq!(conflict_preview(3), (3, 0));
    assert_eq!(conflict_preview(25), (10, 15));
}

#[test]
fn answers_accepted_as_yes() {
    assert!(answer_is_yes("y\n"));
    assert!(answer_is_yes("  YES "));
    assert!(!answer_is_yes("n"));
    assert!(!answer_is_yes(""));
    assert!(!answer_is_yes("yess"));
}

#[test]
fn posters_compared_by_digest() {
    assert!(same_poster(&vec![1, 2, 3], &vec![1, 2, 3]));
    assert!(!same_poster(&vec![1, 2, 3], &vec![1, 2, 4]));
}

#[test]
fn lock_modes() {
    assert_eq!(lock_targets(LockMode::Off), (false, false));
    assert_eq!(lock_targets(LockMode::Show), (true, false));
    assert_eq!(lock_targets(LockMode::All), (true, true));
}

#[test]
fn series_writes_follow_the_answers() {
    let series = Series {
        title: "One Pace".into(),
        showtitle: "One Pace".into(),
        original_title: None,
        plot: "p".into(),
        named_seasons: vec![],
        display_order: Some("aired".into()),
    };
    let w = series_writes("/lib/One Pace", "absolute", true, Some(series.clone()), Some(vec![1, 2]));
    assert_eq!(w.len(), 2);
    assert_eq!(w[0].path, "/lib/One Pace/tvshow.nfo");
    assert_eq!(w[0].label, "tvshow.nfo");
    match &w[0].kind {
        Asset::SeriesNfo { series, lock } => {
            assert_eq!(series.display_order.as_deref(), Some("absolute"));
            assert!(*lock);
        }
        _ => panic!("expected the series NFO"),
    }
    assert_eq!(w[1].path, "/lib/One Pace/poster.png");
    assert!(matches!(&w[1].kind, Asset::Poster(b) if b == &vec![1, 2]));
    assert_eq!(series_writes("/lib", "absolute", false, Some(series), None).len(), 1);
    assert!(series_writes("/lib", "absolute", false, None, Some(vec![1])).is_empty());
}

#[test]
fn season_writes_follow_the_answers() {
    let season = Season { number: 3, title: "3. Syrup Village".into(), plot: None };
    let w = season_writes(3, "/lib/arc", false, Some(season), Some(vec![9]));
    assert_eq!(w.len(), 2);
    assert_eq!(w[0].path, "/lib/arc/season.nfo");
    assert_eq!(w[0].label, "season.nfo (S03)");
    assert!(matches!(&w[0].kind, Asset::SeasonNfo { lock: false, .. }));
    assert_eq!(w[1].path, "/lib/arc/poster.png");
    assert_eq!(w[1].label, "poster.png (S03)");
    let only_poster = season_writes(12, "/lib/b", true, None, Some(vec![1]));
    assert_eq!(only_poster.len(), 1);
    assert_eq!(only_poster[0].label, "poster.png (S12)");
    assert!(season_writes(1, "/lib/c", true, None, None).is_empty());
}

#[test]
fn lookup_answers_decide_the_episode_plan() {
    let (o, p) = plan_lookup("/lib", "/lib/arc/ep.mkv", false, Ok(None), 0, 1, false);
    assert_eq!(o, LookupOutcome::NoMatch);
    assert!(p.is_none());
    let (o, p) = plan_lookup("/lib", "/lib/arc/ep.mkv", false, Err(anyhow::Error::msg("down")), 0, 1, false);
    assert_eq!(o, LookupOutcome::Failed);
    assert!(p.is_none());
    let e = Episode {
        showtitle: "One Pace".into(),
        season: 2,
        number: 3,
        title: "T".into(),
        plot: None,
        premiered: None,
        aired: None,
    };
    let (o, p) = plan_lookup("/lib", "/lib/arc/ep.mkv", true, Ok(Some(e)), 1, 4, true);
    assert_eq!(o, LookupOutcome::Matched);
    let (w, folder) = p.unwrap();
    assert_eq!(w.path, "/lib/arc/ep.nfo");
    assert_eq!(w.label, "S02E03 (2/4)");
    assert!(matches!(&w.kind, Asset::EpisodeNfo { episode, lock: true } if episode.title == "T (Extended)"));
    assert_eq!(folder, Some((2, "/lib/arc".to_string())));
}

/// Answers episode `n` with season `n / 10`; episode 9 is unknown and
/// episode 8 fails.
struct BySeason;

impl DataSource for BySeason {
    fn name(&self) -> &'static str {
        "by-season"
    }
    fn series(&self) -> Result<Option<Series>, anyhow::Error> {
        Ok(None)
    }
    fn season(&self, _: u32) -> Result<Option<Season>, anyhow::Error> {
        Ok(None)
    }
    fn episode(&self, _: &str, n: u32) -> Result<Option<Episode>, anyhow::Error> {
        match n {
            8 => Err(anyhow::Error::msg("down")),
            9 => Ok(None),
            _ => Ok(Some(Episode {
                showtitle: "One Pace".into(),
                season: n / 10,
                number: n % 10,
                title: format!("E{n}"),
                plot: None,
                premiered: None,
                aired: None,
            })),
        }
    }
    fn image(&self, _: ImageKind) -> Result<Option<Vec<u8>>, anyhow::Error> {
        Ok(None)
    }
}

#[test]
fn episode_plan_records_the_first_arc_folder_of_each_season() {
    let winners = vec![
        entry("/lib/root.mkv", "Romance Dawn", 11, false),
        entry("/lib/Arc A/a.mkv", "Romance Dawn", 12, false),
        entry("/lib/Arc B/b.mkv", "Romance Dawn", 13, false),
        entry("/lib/Arc C/c.mkv", "Orange Town", 21, false),
        entry("/lib/Arc D/d.mkv", "Orange Town", 9, false),
        entry("/lib/Arc E/e.mkv", "Orange Town", 8, false),
    ];
    let (writes, folders, stats) = plan_episode_assets(&BySeason, "/lib", &winners, false);
    assert_eq!(
        folders,
        vec![(1, "/lib/Arc A".to_string()), (2, "/lib/Arc C".to_string())]
    );
    let paths: Vec<&str> = writes.iter().map(|w| w.path.as_str()).collect();
    assert_eq!(
        paths,
        vec!["/lib/root.nfo", "/lib/Arc A/a.nfo", "/lib/Arc B/b.nfo", "/lib/Arc C/c.nfo"]
    );
    assert_eq!(writes[3].label, "S02E01 (4/6)");
    assert_eq!(stats.matched_to_source, 4);
    assert_eq!(stats.no_source_match, 1);
    assert_eq!(stats.fetch_failed, 1);
}
