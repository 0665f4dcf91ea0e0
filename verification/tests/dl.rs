use pacefinder::dl::{Release, height_of_resolution, parse_magnet, urldecode_plus};
use pacefinder::matcher::ParsedFile;
use pacefinder::qbittorrent::{
    Torrent, add_accepted, add_magnet_body, api_url, login_body, sid_cookie, sid_from_cookies,
    torrent_names, urlencode, torrents_from_json, torrents_of_json,
};
use pacefinder::json::Json;

fn parsed(arc: &str, res: &str) -> ParsedFile {
    ParsedFile {
        arc: arc.into(),
        episode: 1,
        chapter_range: "1".into(),
        resolution: Some(res.into()),
        crc32: None,
        extension: "mkv".into(),
        extended: false,
    }
}

#[test]
fn parses_typical_one_pace_magnet() {
    let uri = "magnet:?xt=urn:btih:73e0d240e57bf1143a5684a654eee46275a13ef5\
               &dn=%5BOne+Pace%5D%5B123-126%5D+Little+Garden+04+%5B1080p%5D%5BCA509241%5D.mkv\
               &tr=http%3A%2F%2Fnyaa.tracker.wf%3A7777%2Fannounce";
    let m = parse_magnet(uri).unwrap();
    assert_eq!(m.btih, "73e0d240e57bf1143a5684a654eee46275a13ef5");
    assert_eq!(
        m.display_name.as_deref(),
        Some("[One Pace][123-126] Little Garden 04 [1080p][CA509241].mkv"),
    );
}

#[test]
fn rejects_non_magnet_uri() {
    assert!(parse_magnet("https://example.com/foo").is_none());
    assert!(parse_magnet("magnet:?dn=foo").is_none());
}

#[test]
fn height_handles_common_tokens() {
    assert_eq!(height_of_resolution("1080p"), Some(1080));
    assert_eq!(height_of_resolution("720p"), Some(720));
    assert_eq!(height_of_resolution("480p"), Some(480));
    assert_eq!(height_of_resolution("640x480 x265 AAC"), Some(480));
    assert_eq!(height_of_resolution("nonsense"), None);
}

#[test]
fn release_height_routes_through_resolution() {
    let r = Release {
        magnet: "magnet:?xt=urn:btih:abc".into(),
        filename: "x.mkv".into(),
        parsed: Some(parsed("x", "720p")),
    };
    assert_eq!(r.height(), Some(720));
}

#[test]
fn release_without_parse_has_no_height() {
    let r = Release { magnet: "magnet:?xt=urn:btih:abc".into(), filename: "x.mkv".into(), parsed: None };
    assert_eq!(r.height(), None);
}

#[test]
fn urlencode_handles_typical_chars() {
    assert_eq!(urlencode("hello world"), "hello+world");
    assert_eq!(urlencode("a/b"), "a%2Fb");
    assert_eq!(urlencode("simple-thing.txt"), "simple-thing.txt");
    assert_eq!(urlencode("=&%"), "%3D%26%25");
}

#[test]
fn urlencode_round_trips_through_decoder() {
    let original = "[One Pace] Romance Dawn 01 [1080p][D767799C].mkv";
    let encoded = urlencode(original);
    let decoded = urldecode_plus(&encoded);
    assert_eq!(decoded, original);
}

#[test]
fn urlencode_round_trips_non_ascii() {
    let original = "Ōnepace — 空島";
    assert_eq!(urldecode_plus(&urlencode(original)), original);
    assert_eq!(urlencode("é"), "%C3%A9");
}

#[test]
fn urldecode_keeps_malformed_escapes() {
    assert_eq!(urldecode_plus("a+b%2"), "a b%2");
    assert_eq!(urldecode_plus("%zz"), "%zz");
}

#[test]
fn form_bodies_are_encoded() {
    assert_eq!(login_body("admin", "p w&"), "username=admin&password=p+w%26");
    assert_eq!(
        add_magnet_body("magnet:?x", "/d/a b", Some("tv")),
        "urls=magnet%3A%3Fx&savepath=%2Fd%2Fa+b&autoTMM=false&category=tv"
    );
    assert_eq!(add_magnet_body("m", "/d", None), "urls=m&savepath=%2Fd&autoTMM=false");
}

#[test]
fn add_reply_is_judged() {
    assert!(add_accepted(true, "Ok."));
    assert!(!add_accepted(true, "  fails.\n"));
    assert!(!add_accepted(false, "Ok."));
}

#[test]
fn sid_cookie_is_found() {
    let values = vec![
        Some("other=1; path=/".to_string()),
        Some("SID=abc123; HttpOnly; path=/".to_string()),
    ];
    assert_eq!(sid_from_cookies(&values).as_deref(), Some("abc123"));
    assert_eq!(sid_from_cookies(&vec![Some("SID=; path=/".to_string())]), None);
    assert_eq!(sid_from_cookies(&vec![None, Some("SID=x".to_string())]), None);
    assert_eq!(sid_cookie("abc"), "SID=abc");
}

#[test]
fn api_urls_drop_trailing_slashes() {
    assert_eq!(api_url("http://localhost:8080//", "/api/v2/auth/login"), "http://localhost:8080/api/v2/auth/login");
    assert_eq!(api_url("http://h", "/x"), "http://h/x");
}

#[test]
fn torrent_names_in_order() {
    let ts = vec![
        Torrent { name: "a".into(), category: "c".into(), state: "s".into() },
        Torrent { name: "b".into(), category: "".into(), state: "".into() },
    ];
    assert_eq!(torrent_names(&ts), vec!["a".to_string(), "b".to_string()]);
}

#[test]
fn magnet_pairs_without_equals_are_passed_over() {
    let m = parse_magnet("magnet:?xt=urn:btih:abc&").unwrap();
    assert_eq!(m.btih, "abc");
    assert_eq!(m.display_name, None);
    let m = parse_magnet("magnet:?flag&xt=urn:btih:def&dn=A+b").unwrap();
    assert_eq!(m.btih, "def");
    assert_eq!(m.display_name.as_deref(), Some("A b"));
    assert!(parse_magnet("magnet:?flag&dn=x").is_none());
}

#[test]
fn torrent_listing_reads_names_and_defaults_missing_fields() {
    let ts = torrents_from_json(r#"[{"name":"a.mkv","category":"tv","state":"uploading"},{"name":3},{}, 7]"#).unwrap();
    assert_eq!(ts.len(), 4);
    assert_eq!((ts[0].name.as_str(), ts[0].category.as_str(), ts[0].state.as_str()), ("a.mkv", "tv", "uploading"));
    assert_eq!(ts[1].name, "");
    assert_eq!(ts[2].state, "");
    assert_eq!(ts[3].name, "");
    assert!(torrents_from_json(r#"{"name":"a"}"#).is_none());
    assert!(torrents_from_json("not json").is_none());
}

#[test]
fn torrents_read_from_a_json_value() {
    let listing = Json::Array(vec![
        Json::Object(vec![
            ("name".to_string(), Json::Str("b.mkv".to_string())),
            ("state".to_string(), Json::Number("1".to_string())),
        ]),
        Json::Null,
    ]);
    let ts = torrents_of_json(&listing).unwrap();
    assert_eq!(ts.len(), 2);
    assert_eq!(ts[0].name, "b.mkv");
    assert_eq!(ts[0].category, "");
    assert_eq!(ts[0].state, "");
    assert_eq!(ts[1].name, "");
    assert!(torrents_of_json(&Json::Str("x".to_string())).is_none());
}
