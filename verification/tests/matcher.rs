use pacefinder::matcher::{ParsedFile, arc_from_folder_name, is_arc_folder_name, normalize_arc};

#[test]
fn parses_canonical_episode_filename() {
    let p = ParsedFile::from_filename("[One Pace][1] Romance Dawn 01 [1080p][D767799C].mkv").unwrap();
    assert_eq!(p.arc, "Romance Dawn");
    assert_eq!(p.episode, 1);
    assert_eq!(p.chapter_range, "1");
    assert_eq!(p.resolution.as_deref(), Some("1080p"));
    assert_eq!(p.crc32.as_deref(), Some("D767799C"));
    assert_eq!(p.extension, "mkv");
}

#[test]
fn parses_chapter_range() {
    let p = ParsedFile::from_filename("[One Pace][2-3] Romance Dawn 02 [1080p][ABCD1234].mkv").unwrap();
    assert_eq!(p.chapter_range, "2-3");
    assert_eq!(p.episode, 2);
}

#[test]
fn parses_multi_word_arc_with_punctuation() {
    let p = ParsedFile::from_filename(
        "[One Pace][1051-1053] Long Ring Long Land 04 [720p][12345678].mkv",
    )
    .unwrap();
    assert_eq!(p.arc, "Long Ring Long Land");
    assert_eq!(p.episode, 4);
}

#[test]
fn parses_filename_without_crc() {
    let p = ParsedFile::from_filename("[One Pace][1] Romance Dawn 01 [1080p].mkv").unwrap();
    assert_eq!(p.crc32, None);
    assert_eq!(p.episode, 1);
}

#[test]
fn parses_uppercase_crc_consistently() {
    let p = ParsedFile::from_filename("[One Pace][1] Romance Dawn 01 [1080p][d767799c].mkv").unwrap();
    assert_eq!(p.crc32.as_deref(), Some("D767799C"));
}

#[test]
fn rejects_non_one_pace_file() {
    assert!(ParsedFile::from_filename("Some.Other.Show.S01E01.mkv").is_none());
}

#[test]
fn parses_multi_chapter_range_with_comma() {
    let p = ParsedFile::from_filename("[One Pace][42,22] Gaimon 01 [1080p][0C2DBF75].mkv").unwrap();
    assert_eq!(p.chapter_range, "42,22");
    assert_eq!(p.arc, "Gaimon");
    assert_eq!(p.episode, 1);
}

#[test]
fn parses_range_with_comma_and_space() {
    let p = ParsedFile::from_filename("[One Pace][153-155, 142] Drum Island 08 [1080p][9794072D].mkv")
        .unwrap();
    assert_eq!(p.arc, "Drum Island");
    assert_eq!(p.episode, 8);
}

#[test]
fn parses_single_file_arc_without_episode_number() {
    let p = ParsedFile::from_filename(
        "[One Pace][35-75] The Adventures of Buggy's Crew [1080p][E75794DB].mkv",
    )
    .unwrap();
    assert_eq!(p.arc, "The Adventures of Buggy's Crew");
    assert_eq!(p.episode, 1);
    assert_eq!(p.chapter_range, "35-75");
}

#[test]
fn arc_folder_regex_accepts_open_ended_range() {
    assert!(is_arc_folder_name("[One Pace][1058-] Egghead [1080p]"));
}

#[test]
fn recognizes_arc_folder_names() {
    assert!(is_arc_folder_name("[One Pace][1-7] Romance Dawn [1080p]"));
    assert!(is_arc_folder_name("[One Pace][1051-1053] Wano [720p]"));
    assert!(!is_arc_folder_name("[One Pace][1] Romance Dawn 01 [1080p][D767799C].mkv"));
    assert!(!is_arc_folder_name("One Pace"));
    assert!(!is_arc_folder_name("Season 1"));
}

#[test]
fn normalize_arc_strips_punctuation_and_lowercases() {
    assert_eq!(normalize_arc("Romance Dawn"), "romance dawn");
    assert_eq!(normalize_arc("The Adventures of Buggy's Crew"), "the adventures of buggy s crew");
    assert_eq!(
        normalize_arc("If You Could Go Anywhere... The Adventures of the Straw Hats"),
        "if you could go anywhere the adventures of the straw hats"
    );
}

#[test]
fn parses_extended_cut_marker() {
    let p = ParsedFile::from_filename("[One Pace][130-135] Arlong Park 05 Extended [1080p][ABCDEF01].mkv")
        .unwrap();
    assert_eq!(p.arc, "Arlong Park");
    assert_eq!(p.episode, 5);
    assert!(p.extended);
    let q = ParsedFile::from_filename("[One Pace][130-135] Arlong Park 05 [1080p][ABCDEF01].mkv").unwrap();
    assert!(!q.extended);
}

#[test]
fn from_path_uses_the_last_component() {
    let p = ParsedFile::from_path("/lib/One Pace/arc/[One Pace][1] Romance Dawn 01 [1080p][D767799C].mkv")
        .unwrap();
    assert_eq!(p.arc, "Romance Dawn");
    assert!(ParsedFile::from_path("/").is_none());
}

#[test]
fn arc_from_folder_name_reads_the_arc() {
    assert_eq!(
        arc_from_folder_name("[One Pace][1-7] Romance Dawn [1080p]").as_deref(),
        Some("Romance Dawn")
    );
    assert_eq!(arc_from_folder_name("Season 1"), None);
}

#[test]
fn normalized_arc_names_are_single_spaced_and_stable() {
    let once = normalize_arc("  Long Ring, Long  Land!! ");
    assert_eq!(once, "long ring long land");
    assert_eq!(normalize_arc(&once), once);
    assert_eq!(normalize_arc("...,,"), "");
    assert_eq!(normalize_arc("Wano Act 1"), "wano act 1");
}

#[test]
fn only_the_file_name_of_a_path_matters() {
    let name = "[One Pace][1] Romance Dawn 01 [1080p][D767799C].mkv";
    let direct = ParsedFile::from_filename(name).unwrap();
    for dir in ["/lib/One Pace/arc", "relative/dir/", "", "/"] {
        let path = if dir.is_empty() { name.to_string() } else if dir.ends_with('/') { format!("{dir}{name}") } else { format!("{dir}/{name}") };
        let p = ParsedFile::from_path(&path).unwrap();
        assert_eq!(p.arc, direct.arc);
        assert_eq!(p.episode, direct.episode);
        assert_eq!(p.crc32, direct.crc32);
    }
    assert!(ParsedFile::from_path("/").is_none());
}

#[test]
fn normalized_arc_names_ignore_case_and_keep_words() {
    assert_eq!(normalize_arc("LONG RING LONG LAND"), normalize_arc("Long Ring Long Land"));
    assert_eq!(normalize_arc("a1--B2 c3"), "a1 b2 c3");
}
