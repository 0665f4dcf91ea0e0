use pacefinder::fs_util::root_error_message;
use pacefinder::generate::MarkerStatus;
use pacefinder::nfo::marker::{marker_status_of, stamp_nfo};
use pacefinder::model::{Episode, NamedSeason, Season, Series};
use pacefinder::nfo::kodi::{KodiEpisode, KodiSeason, KodiTvShow, lockdata_for};
use pacefinder::paths::{file_name, join, parent, same_path, starts_with, strip_prefix, with_extension};
use pacefinder::reorder::{EntryKind, rename_plan, reorder_plan};
use pacefinder::scan::{is_video, video_files};
use pacefinder::source::cache::{cache_file_name, hex_lower, is_fresh};

#[test]
fn canonicalize_root_missing_path() {
    let err = root_error_message("/nonexistent_pacefinder_test_dir/whatever", true, "No such file");
    assert!(err.contains("path does not exist"), "got: {err}");
    assert!(err.contains("whatever"), "got: {err}");
    assert_eq!(root_error_message("/x", false, "denied"), "/x: denied");
}

#[test]
fn videos_are_recognized_by_extension() {
    assert!(is_video("/a/b.mkv"));
    assert!(is_video("/a/b.MP4"));
    assert!(is_video("b.m4v"));
    assert!(is_video("b.Avi"));
    assert!(!is_video("/a/b.nfo"));
    assert!(!is_video("/a/.mkv"));
    assert!(!is_video("/a/mkv"));
}

#[test]
fn path_helpers_follow_components() {
    assert_eq!(file_name("/a/b/c.mkv").as_deref(), Some("c.mkv"));
    assert_eq!(file_name("/a/b/"), Some("b".to_string()));
    assert_eq!(file_name("/"), None);
    assert_eq!(join("/a", "b"), "/a/b");
    assert_eq!(join("/a/", "b"), "/a/b");
    assert_eq!(join("/a", "/b"), "/b");
    assert_eq!(strip_prefix("/a/b/c", "/a").as_deref(), Some("b/c"));
    assert_eq!(strip_prefix("/ab/c", "/a"), None);
    assert!(starts_with("/a/b", "/a/"));
    assert!(same_path("/a//b/", "/a/b"));
    assert!(!same_path("/a/b", "a/b"));
    assert_eq!(with_extension("/lib/x/ep.mkv", "nfo"), "/lib/x/ep.nfo");
    assert_eq!(with_extension("/lib/x/Anywhere... Ep [1080p]", "nfo"), "/lib/x/Anywhere...nfo");
    assert_eq!(with_extension("/", "nfo"), "/");
    assert_eq!(parent("/lib/x/ep.mkv").as_deref(), Some("/lib/x"));
    assert_eq!(parent("/lib").as_deref(), Some("/"));
    assert_eq!(parent("/"), None);
    assert_eq!(parent("ep.mkv").as_deref(), Some(""));
}

#[test]
fn reorder_moves_arc_folders_only() {
    let entries = vec![
        ("[One Pace][1-7] Romance Dawn [1080p]".to_string(), EntryKind::Dir),
        ("One Pace".to_string(), EntryKind::Dir),
        ("[One Pace][1] Romance Dawn 01 [1080p][D767799C].mkv".to_string(), EntryKind::File),
        ("notes.txt".to_string(), EntryKind::File),
        ("[One Pace][8-21] Orange Town [1080p]".to_string(), EntryKind::File),
        ("[One Pace][8-21] Orange Town [1080p]".to_string(), EntryKind::Dir),
    ];
    let (moves, loose) = reorder_plan(&entries, "One Pace");
    assert_eq!(moves, vec![0, 5]);
    assert_eq!(loose, 1);
    let again = vec![("One Pace".to_string(), EntryKind::Dir)];
    assert_eq!(reorder_plan(&again, "One Pace"), (vec![], 0));
}

fn series() -> Series {
    Series {
        title: "One Pace".into(),
        showtitle: "One Pace".into(),
        original_title: Some("One Piece".into()),
        plot: "p".into(),
        display_order: Some("absolute".into()),
        named_seasons: vec![NamedSeason { number: 1, name: "1. Romance Dawn".into() }],
    }
}

#[test]
fn tvshow_round_trips_to_domain() {
    let s = series();
    let k = KodiTvShow::from_series(&s);
    assert_eq!(k.lockdata, None);
    assert_eq!(k.namedseasons[0].name, "1. Romance Dawn");
    let back = Series::from_kodi(&k);
    assert_eq!(back.title, "One Pace");
    assert_eq!(back.original_title.as_deref(), Some("One Piece"));
    assert_eq!(back.named_seasons, s.named_seasons);
    assert_eq!(back.display_order.as_deref(), Some("absolute"));
}

#[test]
fn season_and_episode_round_trip() {
    let s = Season { number: 1, title: "1. Romance Dawn".into(), plot: Some("Luffy sets out.".into()) };
    let back = Season::from_kodi(&KodiSeason::from_season(&s));
    assert_eq!(back.number, 1);
    assert_eq!(back.title, "1. Romance Dawn");
    assert_eq!(back.plot.as_deref(), Some("Luffy sets out."));
    let e = Episode {
        showtitle: "One Pace".into(),
        season: 1,
        number: 1,
        title: "Romance Dawn, the Dawn of an Adventure".into(),
        plot: Some("Luffy meets Shanks.".into()),
        premiered: Some("2025-05-03".into()),
        aired: Some("2025-05-03".into()),
    };
    let k = KodiEpisode::from_episode(&e);
    assert_eq!(k.episode, 1);
    let back = Episode::from_kodi(&k);
    assert_eq!(back.title, e.title);
    assert_eq!(back.premiered.as_deref(), Some("2025-05-03"));
    assert_eq!(lockdata_for(true), Some(true));
    assert_eq!(lockdata_for(false), None);
}

#[test]
fn cache_names_are_hex_sha256_of_url_and_headers() {
    let hex: String = hex_lower(&vec![0x00, 0xab, 0x10, 0xff]).into_iter().collect();
    assert_eq!(hex, "00ab10ff");
    assert_eq!(
        cache_file_name("abc", &vec![]),
        "ba7816bf8f01cfea414140de5dae2223b00361a396177a9cb410ff61f20015ad.bin"
    );
    assert_eq!(
        cache_file_name("https://onepace.net/watch", &vec![("RSC".to_string(), "1".to_string())]),
        "19d506a8bc2e68b7b85a2801322d052ee5597690c27f7f6ca46fd19b636d9ebc.bin"
    );
}

#[test]
fn cache_freshness_follows_ttl_and_tolerates_future_mtimes() {
    assert!(is_fresh(100, 50, 51));
    assert!(!is_fresh(100, 50, 50));
    assert!(is_fresh(100, 200, 1));
    assert!(!is_fresh(100, 200, 0));
}

#[test]
fn nfo_marker_tells_ours_edited_and_foreign_apart() {
    let stamped = stamp_nfo("abc");
    assert_eq!(
        stamped,
        "abc<!-- pacefinder:sha256=ba7816bf8f01cfea414140de5dae2223b00361a396177a9cb410ff61f20015ad -->\n"
    );
    assert_eq!(marker_status_of(&stamped), MarkerStatus::IntactOurs);
    let edited = stamped.replacen("abc", "abd", 1);
    assert_eq!(marker_status_of(&edited), MarkerStatus::EditedOurs);
    assert_eq!(marker_status_of("<tvshow></tvshow>\n"), MarkerStatus::Absent);
    let xml = "<?xml version=\"1.0\"?>\n<season><title>x</title></season>\n";
    assert_eq!(marker_status_of(&stamp_nfo(xml)), MarkerStatus::IntactOurs);
}

#[test]
fn reorder_leaves_folders_whose_name_is_taken_and_a_rerun_renames_nothing() {
    let entries = vec![
        ("[One Pace][1-7] Romance Dawn [1080p]".to_string(), EntryKind::Dir),
        ("[One Pace][8-21] Orange Town [1080p]".to_string(), EntryKind::Dir),
        ("One Pace".to_string(), EntryKind::Dir),
        ("notes.txt".to_string(), EntryKind::File),
    ];
    let taken = vec!["[One Pace][8-21] Orange Town [1080p]".to_string()];
    let (renames, skips) = rename_plan(&entries, "One Pace", &taken);
    assert_eq!(renames, vec![0]);
    assert_eq!(skips, vec![1]);
    let after = vec![entries[1].clone(), entries[2].clone(), entries[3].clone()];
    let target = vec![taken[0].clone(), entries[0].0.clone()];
    let (renames, skips) = rename_plan(&after, "One Pace", &target);
    assert!(renames.is_empty());
    assert_eq!(skips, vec![0]);
}

#[test]
fn scan_lists_videos_in_path_order() {
    let files = vec![
        "/lib/b/x.mkv".to_string(),
        "/lib/a b/y.MP4".to_string(),
        "/lib/a/z.nfo".to_string(),
        "/lib/a/z.mkv".to_string(),
    ];
    // "a" < "a b" component-wise, though "/lib/a b/..." < "/lib/a/..." as plain strings.
    assert_eq!(video_files(&files), vec!["/lib/a/z.mkv", "/lib/a b/y.MP4", "/lib/b/x.mkv"]);
}
