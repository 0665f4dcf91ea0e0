use pacefinder::dl::Release;
use pacefinder::download::{
    PathMap, PathMapError, ReleaseAction, ReleasePlan, RunStats, choose_arc_folder, crcs_of_names,
    library_crcs, parse_resolution_cap, pick_best_per_episode, prepopulate_path, proposed_arc_folder,
    release_action, release_plan, save_path_hint, save_paths, short_magnet, top_component,
};
use pacefinder::matcher::ParsedFile;
use pacefinder::paths::same_path;

const NX: &str = "/nonexistent_pacefinder_test_dir/media";

#[test]
fn pathmap_parse_basic() {
    let m = PathMap::parse(&format!("{NX}=/downloads")).ok().unwrap();
    assert_eq!(m.host, NX);
    assert_eq!(m.container, "/downloads");
}

#[test]
fn pathmap_parse_strips_trailing_slashes() {
    let m = PathMap::parse(&format!("{NX}/=/downloads/")).ok().unwrap();
    assert_eq!(m.host, NX);
    assert_eq!(m.container, "/downloads");
}

#[test]
fn pathmap_parse_first_equals_splits() {
    let m = PathMap::parse("/a=/b=/c").ok().unwrap();
    assert_eq!(m.host, "/a");
    assert_eq!(m.container, "/b=/c");
}

#[test]
fn pathmap_parse_rejects_missing_equals() {
    let err = match PathMap::parse("no-equals") {
        Err(e) => e.message(),
        Ok(_) => panic!("accepted"),
    };
    assert!(err.contains("HOST=CONTAINER"), "got: {err}");
    assert!(err.contains("\"no-equals\""), "got: {err}");
}

#[test]
fn pathmap_parse_rejects_empty_sides() {
    assert!(PathMap::parse("=/c").is_err());
    assert!(PathMap::parse("/h=").is_err());
    assert!(PathMap::parse("=").is_err());
    assert!(PathMap::parse("/=/").is_err());
    match PathMap::parse("/=/") {
        Err(PathMapError::EmptySide { input }) => assert_eq!(input, "/=/"),
        _ => panic!("wrong error"),
    }
}

#[test]
fn pathmap_translate_strips_host_prefix() {
    let m = PathMap { host: "/mnt/media".into(), container: "/downloads".into() };
    assert_eq!(m.translate("/mnt/media/Arc/file.mkv").as_deref(), Some("/downloads/Arc/file.mkv"));
}

#[test]
fn pathmap_translate_exact_match() {
    let m = PathMap { host: "/mnt/media".into(), container: "/downloads".into() };
    let t = m.translate("/mnt/media").unwrap();
    assert!(same_path(&t, "/downloads"), "got {t}");
}

#[test]
fn pathmap_translate_component_aware() {
    let m = PathMap { host: "/mnt/media".into(), container: "/downloads".into() };
    assert!(m.translate("/mnt/medianext/x").is_none());
}

#[test]
fn pathmap_translate_outside_host_is_none() {
    let m = PathMap { host: "/mnt/media".into(), container: "/downloads".into() };
    assert!(m.translate("/other/path").is_none());
}

#[test]
fn pathmap_applies_only_to_children() {
    let m = PathMap { host: "/mnt/media".into(), container: "/downloads".into() };
    assert!(m.applies_to("/mnt/media/anime/One Pace"));
    assert!(m.applies_to("/mnt/media"));
    assert!(!m.applies_to("/mnt/medianext"));
}

#[test]
fn parse_resolution_cap_handles_common_forms() {
    assert_eq!(parse_resolution_cap("1080p").ok(), Some(1080));
    assert_eq!(parse_resolution_cap("720p").ok(), Some(720));
    assert_eq!(parse_resolution_cap("1080").ok(), Some(1080));
    assert_eq!(parse_resolution_cap("  480p  ").ok(), Some(480));
}

#[test]
fn parse_resolution_cap_accepts_uppercase_p() {
    assert_eq!(parse_resolution_cap("1080P").ok(), Some(1080));
}

#[test]
fn parse_resolution_cap_rejects_garbage() {
    assert!(parse_resolution_cap("").is_err());
    assert!(parse_resolution_cap("garbage").is_err());
    assert!(parse_resolution_cap("4k").is_err());
    assert!(parse_resolution_cap("1080p60").is_err());
    let msg = match parse_resolution_cap("4k") {
        Err(e) => e.message(),
        Ok(_) => panic!("accepted"),
    };
    assert_eq!(msg, "invalid --resolution \"4k\": expected `1080p`, `720p`, …");
}

#[test]
fn short_magnet_truncates_at_ampersand() {
    let m = "magnet:?xt=urn:btih:abc&dn=foo&tr=bar";
    assert_eq!(short_magnet(m), "magnet:?xt=urn:btih:abc…");
}

#[test]
fn short_magnet_passes_through_short_input() {
    let m = "magnet:?xt=urn:btih:abc";
    assert_eq!(short_magnet(m), m);
}

#[test]
fn short_magnet_caps_long_non_magnet_at_80_chars() {
    let out = short_magnet(&"x".repeat(120));
    assert_eq!(out.len(), 80);
}

#[test]
fn top_component_returns_first_under_root() {
    assert_eq!(top_component("/mnt/media/anime"), Some("/mnt".into()));
    assert_eq!(top_component("/foo"), Some("/foo".into()));
}

#[test]
fn top_component_none_for_root_only() {
    assert!(top_component("/").is_none());
}

#[test]
fn top_component_none_for_relative_path() {
    assert!(top_component("relative/path").is_none());
}

fn release(arc: &str, ep: u32, res: &str, crc: &str) -> Release {
    Release {
        magnet: format!("magnet:?xt=urn:btih:{crc}"),
        filename: format!("[One Pace][1] {arc} {ep:02} [{res}][{crc}].mkv"),
        parsed: Some(ParsedFile {
            arc: arc.into(),
            episode: ep,
            chapter_range: "1".into(),
            crc32: Some(crc.into()),
            resolution: Some(res.into()),
            extension: "mkv".into(),
            extended: false,
        }),
    }
}

fn extended(arc: &str, ep: u32, res: &str, crc: &str) -> Release {
    let mut r = release(arc, ep, res, crc);
    if let Some(p) = r.parsed.as_mut() {
        p.extended = true;
    }
    r
}

#[test]
fn pick_best_picks_highest_within_cap() {
    let chosen = pick_best_per_episode(
        vec![
            release("Wano", 1, "480p", "00000001"),
            release("Wano", 1, "720p", "00000002"),
            release("Wano", 1, "1080p", "00000003"),
        ],
        1080,
        None,
        false,
    );
    assert_eq!(chosen.len(), 1);
    assert_eq!(chosen[0].parsed.as_ref().unwrap().resolution.as_deref(), Some("1080p"));
}

#[test]
fn pick_best_drops_above_cap() {
    let chosen = pick_best_per_episode(
        vec![release("Wano", 1, "720p", "AAA"), release("Wano", 1, "1080p", "BBB")],
        720,
        None,
        false,
    );
    assert_eq!(chosen.len(), 1);
    assert_eq!(chosen[0].parsed.as_ref().unwrap().resolution.as_deref(), Some("720p"));
}

#[test]
fn pick_best_empty_when_all_above_cap() {
    let chosen = pick_best_per_episode(vec![release("Wano", 1, "1080p", "AAA")], 480, None, false);
    assert!(chosen.is_empty());
}

#[test]
fn pick_best_keeps_distinct_episodes() {
    let chosen = pick_best_per_episode(
        vec![release("Wano", 1, "1080p", "AAA"), release("Wano", 2, "1080p", "BBB")],
        1080,
        None,
        false,
    );
    assert_eq!(chosen.len(), 2);
}

#[test]
fn pick_best_only_arc_substring_case_insensitive() {
    let chosen = pick_best_per_episode(
        vec![release("Wano Act 1", 1, "1080p", "AAA"), release("Romance Dawn", 1, "1080p", "BBB")],
        1080,
        Some("wano"),
        false,
    );
    assert_eq!(chosen.len(), 1);
    assert_eq!(chosen[0].parsed.as_ref().unwrap().arc, "Wano Act 1");
}

#[test]
fn pick_best_skips_parseless_releases() {
    let chosen = pick_best_per_episode(
        vec![
            Release { magnet: "magnet:?xt=urn:btih:xxx".into(), filename: "garbage.mkv".into(), parsed: None },
            release("Wano", 1, "1080p", "AAA"),
        ],
        1080,
        None,
        false,
    );
    assert_eq!(chosen.len(), 1);
}

#[test]
fn pick_best_groups_by_normalized_arc() {
    let chosen = pick_best_per_episode(
        vec![release("Whiskey Peak", 1, "720p", "AAA"), release("whiskey-peak", 1, "1080p", "BBB")],
        1080,
        None,
        false,
    );
    assert_eq!(chosen.len(), 1);
}

#[test]
fn pick_best_excludes_extended_without_opt_in() {
    let chosen = pick_best_per_episode(
        vec![extended("Wano", 5, "1080p", "EXT00001"), release("Wano", 5, "720p", "REG00001")],
        1080,
        None,
        false,
    );
    assert_eq!(chosen.len(), 1);
    assert_eq!(chosen[0].parsed.as_ref().unwrap().crc32.as_deref(), Some("REG00001"));
}

#[test]
fn pick_best_prefers_extended_over_higher_res_regular() {
    let chosen = pick_best_per_episode(
        vec![release("Wano", 5, "1080p", "REG00001"), extended("Wano", 5, "720p", "EXT00001")],
        1080,
        None,
        true,
    );
    assert_eq!(chosen.len(), 1);
    let p = chosen[0].parsed.as_ref().unwrap();
    assert!(p.extended);
    assert_eq!(p.crc32.as_deref(), Some("EXT00001"));
}

#[test]
fn pick_best_uses_regular_when_no_extended_with_opt_in() {
    let chosen = pick_best_per_episode(vec![release("Wano", 5, "1080p", "REG00001")], 1080, None, true);
    assert_eq!(chosen.len(), 1);
    assert!(!chosen[0].parsed.as_ref().unwrap().extended);
}

#[test]
fn pick_best_extended_still_subject_to_cap() {
    let chosen = pick_best_per_episode(vec![extended("Wano", 5, "1080p", "EXT00001")], 720, None, true);
    assert!(chosen.is_empty());
}

#[test]
fn pick_best_orders_by_filename_and_keeps_last_of_equal_height() {
    let chosen = pick_best_per_episode(
        vec![
            release("Wano", 2, "1080p", "B0000001"),
            release("Wano", 1, "1080p", "A0000001"),
            release("Wano", 2, "1080p", "B0000002"),
        ],
        1080,
        None,
        false,
    );
    assert_eq!(chosen.len(), 2);
    assert!(chosen[0].filename < chosen[1].filename);
    assert_eq!(chosen[1].parsed.as_ref().unwrap().crc32.as_deref(), Some("B0000002"));
}

#[test]
fn find_or_propose_arc_folder_exact_match() {
    let dirs = vec!["[One Pace][1-7] Romance Dawn [1080p]".to_string(), "romance dawn".to_string()];
    assert_eq!(choose_arc_folder(&dirs, "Romance Dawn"), "[One Pace][1-7] Romance Dawn [1080p]");
}

#[test]
fn find_or_propose_arc_folder_substring_fallback() {
    let dirs = vec!["romance dawn".to_string()];
    assert_eq!(choose_arc_folder(&dirs, "Romance Dawn"), "romance dawn");
}

#[test]
fn find_or_propose_arc_folder_proposes_when_missing() {
    assert_eq!(choose_arc_folder(&vec![], "Egghead"), "[One Pace] Egghead");
    assert_eq!(proposed_arc_folder("Egghead"), "[One Pace] Egghead");
}

#[test]
fn release_actions_follow_the_diff_rules() {
    let r = release("Wano", 1, "1080p", "AAAA0001");
    let have = vec!["AAAA0001".to_string()];
    let none: Vec<String> = vec![];
    assert_eq!(release_action(&r, &have, &none, false), ReleaseAction::AlreadyHave);
    assert_eq!(release_action(&r, &have, &none, true), ReleaseAction::Queue);
    assert_eq!(release_action(&r, &none, &have, false), ReleaseAction::AlreadyQueued);
    assert_eq!(release_action(&r, &none, &none, false), ReleaseAction::Queue);
    let mut nocrc = release("Wano", 1, "1080p", "X");
    nocrc.parsed.as_mut().unwrap().crc32 = None;
    assert_eq!(release_action(&nocrc, &none, &none, false), ReleaseAction::NoCrc);
    let bad = Release { magnet: "m".into(), filename: "f".into(), parsed: None };
    assert_eq!(release_action(&bad, &none, &none, false), ReleaseAction::Unparseable);
}

#[test]
fn release_plan_targets_arc_folder_and_maps_paths() {
    let r = release("Romance Dawn", 1, "1080p", "AAAA0001");
    let none: Vec<String> = vec![];
    let dirs = Some(vec!["[One Pace][1-7] Romance Dawn [1080p]".to_string()]);
    let map = Some(PathMap { host: "/mnt/media".into(), container: "/downloads".into() });
    match release_plan(&r, &none, &none, false, "/mnt/media/One Pace", &dirs, &map) {
        ReleasePlan::Queue { folder, host_path, save_path } => {
            assert_eq!(folder, "[One Pace][1-7] Romance Dawn [1080p]");
            assert_eq!(host_path, "/mnt/media/One Pace/[One Pace][1-7] Romance Dawn [1080p]");
            assert_eq!(save_path, "/downloads/One Pace/[One Pace][1-7] Romance Dawn [1080p]");
        },
        _ => panic!("not queued"),
    }
    let other = Some(PathMap { host: "/elsewhere".into(), container: "/downloads".into() });
    assert!(matches!(
        release_plan(&r, &none, &none, false, "/mnt/media/One Pace", &None, &other),
        ReleasePlan::MapFailure { .. }
    ));
    let have = vec!["AAAA0001".to_string()];
    assert!(matches!(
        release_plan(&r, &have, &none, false, "/lib", &None, &None),
        ReleasePlan::Skip(ReleaseAction::AlreadyHave)
    ));
}

#[test]
fn save_paths_without_map_are_host_paths() {
    let (h, c) = save_paths("/lib", "[One Pace] Egghead", &None).unwrap();
    assert_eq!(h, "/lib/[One Pace] Egghead");
    assert_eq!(c, h);
}

#[test]
fn crcs_collected_from_names_and_library() {
    let names = vec![
        "[One Pace][1] Romance Dawn 01 [1080p][D767799C].mkv".to_string(),
        "Some.Other.Show.mkv".to_string(),
        "[One Pace][1] Romance Dawn 02 [1080p].mkv".to_string(),
    ];
    assert_eq!(crcs_of_names(&names), vec!["D767799C".to_string()]);
    let files = vec![
        "/lib/a/[One Pace][1] Romance Dawn 01 [1080p][D767799C].MKV".to_string(),
        "/lib/a/[One Pace][1] Romance Dawn 01 [1080p][AAAAAAAA].nfo".to_string(),
    ];
    assert_eq!(library_crcs(&files), vec!["D767799C".to_string()]);
}

#[test]
fn run_stats_count_and_report_failures() {
    let mut s = RunStats::new();
    s.record_skip(ReleaseAction::AlreadyHave);
    s.record_skip(ReleaseAction::AlreadyHave);
    s.record_skip(ReleaseAction::NoCrc);
    assert_eq!(s.already_have, 2);
    assert_eq!(s.no_crc, 1);
    assert_eq!(s.failure_message(), None);
    s.record_queued();
    s.record_prepopulate_failed();
    assert_eq!((s.queued, s.prepopulate_failed, s.queue_failed), (1, 1, 0));
    s.record_queue_failed();
    assert_eq!(s.failure_message().as_deref(), Some("1 torrent(s) failed to queue (see warnings above)"));
    s.queue_failed = 3;
    assert_eq!(s.failure_message().as_deref(), Some("3 torrent(s) failed to queue (see warnings above)"));
}

#[test]
fn prepopulate_path_replaces_extension() {
    assert_eq!(
        prepopulate_path("/lib/arc", "[One Pace][1] Romance Dawn 01 [1080p][D767799C].mkv").as_deref(),
        Some("/lib/arc/[One Pace][1] Romance Dawn 01 [1080p][D767799C].nfo")
    );
    assert_eq!(prepopulate_path("/lib/arc", ""), None);
}

#[test]
fn save_path_hint_only_when_paths_diverge() {
    assert_eq!(
        save_path_hint(false, "/mnt/media/anime/One Pace", Some("/downloads")),
        Some(("/mnt".to_string(), "/downloads".to_string()))
    );
    assert_eq!(save_path_hint(true, "/mnt/media", Some("/downloads")), None);
    assert_eq!(save_path_hint(false, "/mnt/media/x", Some("/mnt/media")), None);
    assert_eq!(save_path_hint(false, "/mnt/media", Some("")), None);
    assert_eq!(save_path_hint(false, "/mnt/media", None), None);
}
