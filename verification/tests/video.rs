use ccdm::error::CcdmError;
use ccdm::video::{
    find_ytdlp, full_spec, is_video_page, is_watch_page, parse_resolved, resolve, resolve_args,
    resolve_page, single_file_spec, start_failure, FormatInfo, PageInfo, YtdlpProbe, QUALITIES,
};
use serde_json::Value;

fn object(members: &[(&str, Value)]) -> Value {
    let mut map = serde_json::Map::new();
    for (key, value) in members {
        map.insert(key.to_string(), value.clone());
    }
    Value::Object(map)
}

#[test]
fn page_detection() {
    assert!(is_video_page("https://www.youtube.com/watch?v=abc123"));
    assert!(is_video_page("https://youtu.be/abc123"));
    assert!(is_video_page("https://vimeo.com/12345"));
    assert!(!is_video_page("https://cdn.example.com/file.mp4"));
    assert!(!is_video_page("not a url"));
}

#[test]
fn thumbnails_are_not_video_pages() {
    // Host-based detection: thumbnail CDN is not a watch host.
    assert!(!is_video_page("https://i.ytimg.com/vi/abc/hqdefault.jpg"));
}

#[test]
fn pages_belong_to_whole_hosts() {
    assert!(is_video_page("https://M.TikTok.com/x"));
    assert!(!is_video_page("https://notyoutube.com/x"));
    assert!(!is_video_page("https://youtube.com.example.org/x"));
    assert!(is_video_page("https://x.com/a"));
    assert!(!is_watch_page(&Err("bad".into())));
}

#[test]
fn spec_tables() {
    assert_eq!(single_file_spec("best"), "b");
    assert_eq!(single_file_spec("720p"), "b[height<=720]/b");
    assert_eq!(single_file_spec("audio"), "ba");
    assert_eq!(full_spec("best"), "bv*+ba/b");
    assert_eq!(full_spec("720p"), "bv*[height<=720]+ba/b");
    assert_eq!(full_spec("ba/best[ext=mp4]"), "ba/best[ext=mp4]");
}

#[test]
fn every_quality_has_a_spec() {
    assert_eq!(QUALITIES, ["best", "1080p", "720p", "480p", "audio"]);
    assert_eq!(single_file_spec("1080"), "b[height<=1080]/b");
    assert_eq!(single_file_spec("480P"), "b[height<=480]/b");
    assert_eq!(full_spec("1080P"), "bv*[height<=1080]+ba/b");
    assert_eq!(full_spec("480"), "bv*[height<=480]+ba/b");
    assert_eq!(full_spec("MP3"), "ba/b");
    assert_eq!(full_spec("Custom"), "Custom");
}

#[test]
fn parses_direct_json() {
    let media = parse_resolved(&object(&[
        ("title", Value::from("Some Video")),
        ("ext", Value::from("mp4")),
        ("url", Value::from("https://r1---example.googlevideo.com/videoplayback?x=1")),
    ]));
    assert_eq!(media.title, "Some Video");
    assert_eq!(
        media.direct_url.as_deref(),
        Some("https://r1---example.googlevideo.com/videoplayback?x=1")
    );
    assert!(!media.needs_mux());
    assert_eq!(media.playback_url(), media.direct_url.as_deref());
}

#[test]
fn parses_merged_json() {
    let media = parse_resolved(&object(&[
        ("title", Value::from("Merged")),
        ("ext", Value::from("mp4")),
        (
            "requested_formats",
            Value::Array(vec![
                object(&[
                    ("url", Value::from("https://v.example/v")),
                    ("vcodec", Value::from("avc1")),
                    ("acodec", Value::from("none")),
                ]),
                object(&[
                    ("url", Value::from("https://v.example/a")),
                    ("vcodec", Value::from("none")),
                    ("acodec", Value::from("opus")),
                ]),
            ]),
        ),
    ]));
    assert!(media.direct_url.is_none());
    assert_eq!(media.video_url.as_deref(), Some("https://v.example/v"));
    assert_eq!(media.audio_url.as_deref(), Some("https://v.example/a"));
    assert!(media.needs_mux());
    assert_eq!(media.playback_url(), Some("https://v.example/v"));
    assert_eq!(media.playback_ext(), "mp4");
}

#[test]
fn title_truncates() {
    let long = "x".repeat(500);
    let media = parse_resolved(&object(&[("title", Value::from(long))]));
    assert_eq!(media.title.len(), 120);
}

#[test]
fn odd_json_falls_back() {
    let media = parse_resolved(&Value::Null);
    assert_eq!(media.title, "video");
    assert_eq!(media.ext, "mp4");
    assert_eq!(media.playback_url(), None);
    let media = parse_resolved(&object(&[
        ("title", Value::from(7)),
        ("ext", Value::from("webm")),
        ("url", Value::from("https://d")),
        ("requested_formats", Value::from("none")),
    ]));
    assert_eq!(media.title, "video");
    assert_eq!(media.playback_ext(), "webm");
}

#[test]
fn first_usable_format_wins() {
    let format = |url: Option<&str>, v: Option<&str>, a: Option<&str>| FormatInfo {
        url: url.map(str::to_string),
        vcodec: v.map(str::to_string),
        acodec: a.map(str::to_string),
    };
    let media = resolve_page(PageInfo {
        title: None,
        ext: None,
        url: None,
        formats: vec![
            format(None, Some("avc1"), None),
            format(Some("1"), Some("vp9"), Some("opus")),
            format(Some("2"), Some("vp9"), Some("opus")),
        ],
    });
    assert_eq!(media.video_url.as_deref(), Some("1"));
    assert_eq!(media.audio_url.as_deref(), Some("1"));
}

const NONE: YtdlpProbe = YtdlpProbe { exists: false, runs: false, plain_runs: false, exe_runs: false };

#[test]
fn missing_binary_is_none() {
    let path = "/definitely/not/here-12345";
    let probe = YtdlpProbe { exists: std::path::Path::new(path).exists(), ..NONE };
    assert!(find_ytdlp(Some(path), probe).is_none());
}

#[test]
fn configured_binary_comes_first() {
    let found = YtdlpProbe { exists: true, plain_runs: true, ..NONE };
    assert_eq!(find_ytdlp(Some(" /opt/yt "), found).as_deref(), Some("/opt/yt"));
    let runs = YtdlpProbe { runs: true, ..NONE };
    assert_eq!(find_ytdlp(Some("yt"), runs).as_deref(), Some("yt"));
    let others = YtdlpProbe { plain_runs: true, exe_runs: true, ..NONE };
    assert_eq!(find_ytdlp(Some("yt"), others), None);
    assert_eq!(find_ytdlp(Some("  "), others).as_deref(), Some("yt-dlp"));
    let exe = YtdlpProbe { exe_runs: true, ..NONE };
    assert_eq!(find_ytdlp(None, exe).as_deref(), Some("yt-dlp.exe"));
    assert_eq!(find_ytdlp(None, NONE), None);
}

#[test]
fn resolving_reads_what_was_written() {
    assert_eq!(
        resolve_args("https://y/", "b"),
        vec!["--dump-single-json", "--no-playlist", "--no-warnings", "-f", "b", "https://y/"]
    );
    let media = resolve(true, br#"{"title":"T","url":"https://d"}"#, "").unwrap();
    assert_eq!(media.title, "T");
    assert_eq!(media.direct_url.as_deref(), Some("https://d"));
    let bad = resolve(true, b"oops", "").unwrap_err();
    assert!(matches!(bad, CcdmError::Other(_)));
    assert!(bad.message().starts_with("yt-dlp returned bad JSON: "));
    assert_eq!(
        resolve(false, b"{}", "a\nb\nc\nd").unwrap_err().message(),
        "yt-dlp resolve failed: b | c | d"
    );
    assert_eq!(
        start_failure("yt-dlp", "not found").message(),
        "yt-dlp failed to start (not found); is it installed?"
    );
}
