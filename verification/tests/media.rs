use ccdm::dash::{
    fill_template, finish_rep, outline, parse_mpd, DashStream, Timing,
};
use ccdm::error::CcdmError;
use ccdm::hls::{
    parse_master, parse_media, parse_resolution, scan_master, scan_media, HlsMedia, HlsSegment,
    MediaItem,
};
use ccdm::manifest::{parse_iso8601, scan_mpd, IsoDuration, RepPlan};
use ccdm::media::{
    check_playlist_size, classify, dash_step, detect_media, hls_media_step, hls_step, media_dest,
    pick_audio, pick_dash, pick_variant, plan_media, playlist_kind, MediaKind, MediaStep, MAX_PLAYLIST_BYTES,
};
use ccdm::urls::resolve_url;

const MASTER: &str = "#EXTM3U\n#EXT-X-STREAM-INF:BANDWIDTH=800000,RESOLUTION=640x360\nlow/index.m3u8\n#EXT-X-STREAM-INF:BANDWIDTH=2400000,RESOLUTION=1280x720\nhi/index.m3u8\n";

const MEDIA: &str = "#EXTM3U\n#EXT-X-TARGETDURATION:10\n#EXT-X-MAP:URI=\"init.mp4\"\n#EXTINF:9.009,\nseg0.m4s\n#EXTINF:9.009,\nseg1.m4s\n#EXT-X-ENDLIST\n";

fn seconds(segment: &HlsSegment) -> f32 {
    match &segment.duration {
        Some(text) => text.parse().unwrap_or(0.0),
        None => 0.0,
    }
}

fn total_seconds(d: &IsoDuration) -> f64 {
    let value = |part: &Option<String>| match part {
        Some(text) => text.parse::<f64>().unwrap_or(0.0),
        None => 0.0,
    };
    value(&d.days) * 86400.0
        + value(&d.hours) * 3600.0
        + value(&d.minutes) * 60.0
        + value(&d.seconds)
}

fn iso(text: &str) -> Option<f64> {
    parse_iso8601(text).map(|d| total_seconds(&d))
}

fn timing(plan: &RepPlan) -> Timing {
    let duration = plan
        .tpl
        .as_ref()
        .and_then(|t| t.duration.as_ref())
        .and_then(|d| d.parse::<f64>().ok())
        .filter(|d| *d > 0.0);
    match (duration, &plan.tpl) {
        (Some(d), Some(tpl)) => {
            let each = d / tpl.timescale.max(1) as f64;
            let total = plan.total.as_ref().map(total_seconds).unwrap_or(0.0);
            Timing { usable: true, count: (total / each).ceil() as u64 }
        }
        _ => Timing { usable: false, count: 0 },
    }
}

fn streams_of(url: &str, text: &str) -> Result<Vec<DashStream>, CcdmError> {
    let scan = scan_mpd(text);
    let timings: Vec<Timing> = scan.plans.iter().map(timing).collect();
    parse_mpd(url, text, &timings)
}

#[test]
fn master_parses_variants() {
    let variants = parse_master("https://cdn.example.com/vod/master.m3u8", MASTER).unwrap();
    assert_eq!(variants.len(), 2);
    assert_eq!(variants[0].bandwidth, 800000);
    assert_eq!(variants[0].resolution, Some((640, 360)));
    assert_eq!(variants[0].uri, "https://cdn.example.com/vod/low/index.m3u8");
    assert_eq!(variants[1].uri, "https://cdn.example.com/vod/hi/index.m3u8");
}

#[test]
fn master_skips_tags_and_bad_numbers() {
    let text = "#EXTM3U\n#EXT-X-STREAM-INF:RESOLUTION=wide\n\n#EXT-X-NOTE\n a.m3u8 \n#EXT-X-STREAM-INF:BANDWIDTH=x\n";
    let variants = parse_master("https://h.com/m.m3u8", text).unwrap();
    assert_eq!(variants.len(), 1);
    assert_eq!(variants[0].bandwidth, 0);
    assert_eq!(variants[0].resolution, None);
    assert_eq!(variants[0].uri, "https://h.com/a.m3u8");
    assert!(parse_master("https://h.com/m.m3u8", MEDIA).unwrap().is_empty());
    assert!(matches!(parse_master("not a url", MASTER), Err(CcdmError::InvalidUrl(_))));
}

#[test]
fn master_entries_keep_their_references() {
    let entries = scan_master(MASTER);
    assert_eq!(entries.len(), 2);
    assert_eq!(entries[0].reference, "low/index.m3u8");
    assert_eq!(entries[1].reference, "hi/index.m3u8");
    assert_eq!(entries[1].bandwidth, 2400000);
    assert_eq!(entries[1].resolution, Some((1280, 720)));
    assert!(scan_master("").is_empty());
}

#[test]
fn media_items_come_in_order() {
    let scan = scan_media(MEDIA);
    assert!(!scan.encrypted);
    assert_eq!(scan.pending, None);
    assert_eq!(scan.items.len(), 3);
    assert!(matches!(&scan.items[0], MediaItem::Init(u) if u == "init.mp4"));
    assert!(matches!(
        &scan.items[2],
        MediaItem::Segment(u, Some(d)) if u == "seg1.m4s" && d == "9.009"
    ));
    let scan = scan_media("#EXT-X-KEY:METHOD=AES-128\n#EXTINF:3,\n");
    assert!(scan.encrypted);
    assert_eq!(scan.pending.as_deref(), Some("3"));
    assert!(scan.items.is_empty());
}

#[test]
fn last_init_fragment_counts() {
    let text = "#EXT-X-MAP:URI=\"a.mp4\"\ns.m4s\n#EXT-X-MAP:URI=\"b.mp4\"\n";
    let media = parse_media("https://h.com/x.m3u8", text).unwrap();
    assert_eq!(media.map_uri.as_deref(), Some("https://h.com/b.mp4"));
    assert_eq!(media.segments.len(), 1);
}

#[test]
fn media_playlists_are_planned() {
    let mut media = HlsMedia { segments: Vec::new(), map_uri: None, encrypted: false };
    assert_eq!(plan_media(media.clone()).unwrap_err().message(), "empty HLS playlist");
    media.segments.push(HlsSegment { uri: "https://h.com/a.ts".into(), duration: None });
    assert!(plan_media(media.clone()).is_ok());
    media.encrypted = true;
    assert!(matches!(plan_media(media), Err(CcdmError::Unsupported(_))));
}

#[test]
fn resolutions_are_two_numbers() {
    assert_eq!(parse_resolution("1280x720"), Some((1280, 720)));
    assert_eq!(parse_resolution("1280"), None);
    assert_eq!(parse_resolution("1x2x3"), None);
    assert_eq!(parse_resolution("4294967296x1"), None);
}

#[test]
fn media_parses_segments_and_map() {
    let media = parse_media("https://h.com/a/pl.m3u8", MEDIA).unwrap();
    assert_eq!(media.segments.len(), 2);
    assert!((seconds(&media.segments[0]) - 9.009).abs() < 0.001);
    assert_eq!(media.segments[1].uri, "https://h.com/a/seg1.m4s");
    assert_eq!(media.map_uri.as_deref(), Some("https://h.com/a/init.mp4"));
    assert!(!media.encrypted);
}

#[test]
fn media_detects_encryption() {
    let text = "#EXTM3U\n#EXT-X-KEY:METHOD=AES-128,URI=\"key.bin\"\n#EXTINF:8.0,\ns0.ts\n";
    assert!(parse_media("https://h.com/x.m3u8", text).unwrap().encrypted);
}

#[test]
fn media_without_durations_and_keys() {
    let text = "#EXTM3U\n#EXT-X-KEY:METHOD=NONE\n#EXTINF:bad,title\na.ts\nb.ts\n#EXTINF: 4 ,x\r\nc.ts\r\n";
    let media = parse_media("https://h.com/x.m3u8", text).unwrap();
    assert!(!media.encrypted);
    assert_eq!(media.segments[0].duration.as_deref(), Some("bad"));
    assert_eq!(media.segments[1].duration, None);
    assert_eq!(media.segments[2].duration.as_deref(), Some("4"));
    assert_eq!(seconds(&media.segments[0]), 0.0);
    assert_eq!(seconds(&media.segments[2]), 4.0);
    assert!(matches!(parse_media("nowhere", "a.ts\n"), Err(CcdmError::InvalidUrl(_))));
}

#[test]
fn classify_markers() {
    assert_eq!(classify("#EXTM3U\nfoo"), Some(MediaKind::Hls));
    assert_eq!(classify("<?xml?><MPD foo"), Some(MediaKind::Dash));
    assert_eq!(classify("<html>nope"), None);
}

#[test]
fn detect_hints() {
    assert_eq!(detect_media("https://h/v.m3u8?tok=1", None), Some(MediaKind::Hls));
    assert_eq!(detect_media("https://h/v.mpd", None), Some(MediaKind::Dash));
    assert_eq!(detect_media("https://h/v.mp4", Some("video/mp4")), None);
    assert_eq!(
        detect_media("https://h/v", Some("application/vnd.apple.mpegurl")),
        Some(MediaKind::Hls)
    );
    assert_eq!(
        detect_media("https://h/v", Some("application/dash+xml")),
        Some(MediaKind::Dash)
    );
}

#[test]
fn detection_ignores_case() {
    assert_eq!(detect_media("https://h/V.M3U", None), Some(MediaKind::Hls));
    assert_eq!(detect_media("https://h/v.mp4?x=.mpd", None), None);
    assert_eq!(detect_media("https://h/v", Some("Audio/MPEGURL")), Some(MediaKind::Hls));
    // The Kelvin sign is lower-cased to an ordinary k.
    assert_eq!(detect_media("https://h/\u{212a}.MPD", None), Some(MediaKind::Dash));
    assert_eq!(MediaKind::Hls.label(), "HLS");
    assert_eq!(MediaKind::Dash.label(), "DASH");
}

const MPD_TEMPLATE: &str = r#"<?xml version="1.0"?><MPD xmlns="urn:mpeg:dash:schema:mpd:2011" type="static" mediaPresentationDuration="PT20S"><Period duration="PT20S"><AdaptationSet mimeType="video/mp4"><SegmentTemplate timescale="1" duration="10" initialization="init-$RepresentationID$.mp4" media="seg-$RepresentationID$-$Number$.m4s" startNumber="1"/><Representation id="v1" bandwidth="1000000"/></AdaptationSet></Period></MPD>"#;

#[test]
fn mpd_template_expands() {
    let streams = streams_of("https://cdn.example.com/dash/manifest.mpd", MPD_TEMPLATE).unwrap();
    assert_eq!(streams.len(), 1);
    assert_eq!(
        streams[0].segments,
        vec![
            "https://cdn.example.com/dash/seg-v1-1.m4s",
            "https://cdn.example.com/dash/seg-v1-2.m4s",
        ]
    );
    assert_eq!(
        streams[0].init.as_deref(),
        Some("https://cdn.example.com/dash/init-v1.mp4")
    );
    assert_eq!(streams[0].bandwidth, 1000000);
}

const MPD_LIST: &str = r#"<MPD type="static"><Period><AdaptationSet mimeType="video/mp4"><BaseURL>video/</BaseURL><SegmentList><Initialization sourceURL="init.mp4"/><SegmentURL media="s1.m4s"/><SegmentURL media="s2.m4s"/></SegmentList><Representation id="v" bandwidth="500"/></AdaptationSet></Period></MPD>"#;

#[test]
fn mpd_list_resolves() {
    let streams = streams_of("https://h.com/m/manifest.mpd", MPD_LIST).unwrap();
    assert_eq!(streams.len(), 1);
    assert_eq!(
        streams[0].segments,
        vec!["https://h.com/m/video/s1.m4s", "https://h.com/m/video/s2.m4s"]
    );
    assert_eq!(streams[0].init.as_deref(), Some("https://h.com/m/video/init.mp4"));
}

const MPD_AUDIO: &str = r#"<MPD type="static"><Period duration="PT20S"><AdaptationSet mimeType="video/mp4"><SegmentTemplate timescale="1" duration="10" media="v-$Number$.m4s"/><Representation id="v" bandwidth="800"/></AdaptationSet><AdaptationSet mimeType="audio/mp4"><SegmentTemplate timescale="1" duration="10" media="a-$Number$.m4s"/><Representation id="a" bandwidth="128"/></AdaptationSet></Period></MPD>"#;

#[test]
fn mpd_audio_picked_separately() {
    let streams = streams_of("https://h.com/m/manifest.mpd", MPD_AUDIO).unwrap();
    assert_eq!(streams.len(), 2);
    let video = pick_dash(&streams).unwrap();
    assert_eq!(video.id, "v");
    assert_eq!(video.segments.len(), 2);
    let audio = pick_audio(&streams).unwrap();
    assert_eq!(audio.id, "a");
    assert_eq!(audio.segments, vec!["https://h.com/m/a-1.m4s", "https://h.com/m/a-2.m4s"]);
}

#[test]
fn mpd_dynamic_rejected() {
    let text = r#"<MPD type="dynamic" minimumUpdatePeriod="PT5S"><Period><AdaptationSet><Representation id="a" bandwidth="1"/></AdaptationSet></Period></MPD>"#;
    assert!(matches!(
        streams_of("https://h.com/x.mpd", text),
        Err(CcdmError::Unsupported(_))
    ));
}

#[test]
fn mpd_templates_need_media_duration_and_total() {
    let manifest = |period: &str, template: &str| {
        format!(
            "<MPD><Period{period}><AdaptationSet><SegmentTemplate {template}/>\
             <Representation id=\"v\" bandwidth=\"1\"/></AdaptationSet></Period></MPD>"
        )
    };
    let url = "https://h.com/x.mpd";
    let cases = [
        ("", "duration=\"10\"", "SegmentTemplate without @media"),
        ("", "media=\"$Number$\"", "SegmentTemplate without @duration"),
        ("", "media=\"$Number$\" duration=\"0\"", "SegmentTemplate without @duration"),
        (
            "",
            "media=\"$Number$\" duration=\"10\"",
            "cannot determine DASH segment count (no Period duration)",
        ),
        (
            " duration=\"PT0S\"",
            "media=\"$Number$\" duration=\"10\"",
            "implausible DASH segment count",
        ),
        (
            " duration=\"P1D\"",
            "media=\"$Number$\" duration=\"0.5\"",
            "implausible DASH segment count",
        ),
    ];
    for (period, template, message) in cases {
        match streams_of(url, &manifest(period, template)) {
            Err(CcdmError::Unsupported(text)) => assert_eq!(text, message),
            other => panic!("{template}: {other:?}"),
        }
    }
}

#[test]
fn mpd_without_representations_has_no_streams() {
    assert!(streams_of("https://h.com/x.mpd", "<MPD><Period></Period></MPD>").unwrap().is_empty());
    assert!(streams_of("https://h.com/x.mpd", "no manifest").unwrap().is_empty());
}

#[test]
fn mpd_unclosed_representation_is_salvaged() {
    let text = r#"<MPD><Period><AdaptationSet><Representation id="a" bandwidth="5"><BaseURL>one.mp4</BaseURL>"#;
    let streams = streams_of("https://h.com/x.mpd", text).unwrap();
    assert_eq!(streams.len(), 1);
    assert_eq!(streams[0].segments, vec!["https://h.com/one.mp4"]);
}

#[test]
fn mpd_broken_off_gives_no_streams() {
    let text = r#"<MPD><Period><AdaptationSet><Representation id="a" bandwidth="1"/><Rep"#;
    assert_eq!(scan_mpd(text).plans.len(), 1);
    assert_eq!(
        streams_of("https://h.com/x.mpd", text).unwrap_err().message(),
        "malformed MPD manifest"
    );
    assert!(matches!(streams_of("nowhere", text), Err(CcdmError::Other(_))));
}

#[test]
fn mpd_single_file_is_its_base() {
    let text = r#"<MPD><BaseURL>v/</BaseURL><Period><AdaptationSet><Representation id="a" bandwidth="5"><BaseURL>one.mp4</BaseURL></Representation></AdaptationSet></Period></MPD>"#;
    let streams = streams_of("https://h.com/m/x.mpd", text).unwrap();
    assert_eq!(streams[0].segments, vec!["https://h.com/m/v/one.mp4"]);
    assert_eq!(streams[0].mime, None);
    let scan = scan_mpd(text);
    let one = finish_rep("https://h.com/m/x.mpd", &scan.plans[0], Timing { usable: false, count: 0 });
    assert_eq!(one.unwrap().unwrap().bandwidth, 5);
}

#[test]
fn templates_are_filled() {
    assert_eq!(fill_template("$RepresentationID$/$Number$.m4s", 7, "v1"), "v1/7.m4s");
    assert_eq!(fill_template("$Number$-$Number$", 12, "x"), "12-12");
    // The number is filled in first.
    assert_eq!(fill_template("$RepresentationID$", 3, "$Number$"), "$Number$");
}

#[test]
fn templates_are_outlined() {
    let text = r#"<MPD><Period duration="PT20S"><AdaptationSet><SegmentTemplate media="$RepresentationID$-$Number$.m4s" initialization="$RepresentationID$-init.mp4" startNumber="5" duration="10"/><Representation id="v" bandwidth="1"/></AdaptationSet></Period></MPD>"#;
    let scan = scan_mpd(text);
    let plan = &scan.plans[0];
    let tpl = plan.tpl.as_ref().unwrap();
    let o = outline(plan, tpl, Timing { usable: true, count: 2 }).unwrap();
    assert_eq!(o.init.as_deref(), Some("v-init.mp4"));
    assert_eq!(o.segments, vec!["v-5.m4s", "v-6.m4s"]);
    assert!(outline(plan, tpl, Timing { usable: true, count: 0 }).is_err());
    assert!(outline(plan, tpl, Timing { usable: false, count: 2 }).is_err());
    let mut late = tpl.clone();
    late.start_number = u64::MAX;
    let one = outline(plan, &late, Timing { usable: true, count: 1 }).unwrap();
    assert_eq!(one.segments, vec!["v-18446744073709551615.m4s"]);
    let two = outline(plan, &late, Timing { usable: true, count: 2 }).unwrap();
    assert_eq!(two.segments[1], "v-18446744073709551616.m4s");
}

#[test]
fn iso8601_durations() {
    assert_eq!(iso("PT20S"), Some(20.0));
    assert_eq!(iso("PT1H2M3S"), Some(3723.0));
    assert!((iso("PT9.5S").unwrap() - 9.5).abs() < 1e-9);
    assert_eq!(iso("P1DT2H"), Some(93600.0));
    assert_eq!(iso("nope"), None);
}

#[test]
fn resolve_absolute_and_relative() {
    assert_eq!(
        resolve_url("https://h.com/a/b.m3u8", "seg.ts").unwrap(),
        "https://h.com/a/seg.ts"
    );
    assert_eq!(
        resolve_url("https://h.com/a/b.m3u8", "https://cdn.com/x.ts").unwrap(),
        "https://cdn.com/x.ts"
    );
    assert!(matches!(resolve_url("nowhere", "seg.ts"), Err(CcdmError::InvalidUrl(_))));
}

#[test]
fn richest_rendition_is_taken() {
    let variants = parse_master("https://h.com/m.m3u8", MASTER).unwrap();
    assert_eq!(pick_variant(&variants).unwrap().bandwidth, 2400000);
    assert!(pick_variant(&[]).is_none());
    let stream = |id: &str, bandwidth: u64, mime: Option<&str>| DashStream {
        id: id.into(),
        bandwidth,
        mime: mime.map(str::to_string),
        init: None,
        segments: vec![format!("https://h.com/{id}")],
    };
    let list = [
        stream("a", 9, Some("audio/mp4")),
        stream("v", 5, Some("video/mp4")),
        stream("w", 5, Some("video/webm")),
        stream("x", 7, None),
    ];
    // Among equals the last one wins.
    assert_eq!(pick_dash(&list).unwrap().id, "w");
    assert_eq!(pick_audio(&list).unwrap().id, "a");
    assert_eq!(pick_dash(&list[3..]).unwrap().id, "x");
    assert!(pick_audio(&list[1..]).is_none());
    assert!(pick_dash(&[]).is_none());
}

#[test]
fn hls_plans() {
    match hls_step("https://h.com/m.m3u8", MASTER).unwrap() {
        MediaStep::FetchVariant(uri) => assert_eq!(uri, "https://h.com/hi/index.m3u8"),
        other => panic!("{other:?}"),
    }
    let wanted = vec![
        "https://h.com/a/init.mp4",
        "https://h.com/a/seg0.m4s",
        "https://h.com/a/seg1.m4s",
    ];
    match hls_step("https://h.com/a/pl.m3u8", MEDIA).unwrap() {
        MediaStep::Append(list) => assert_eq!(list, wanted),
        other => panic!("{other:?}"),
    }
    match hls_media_step("https://h.com/a/pl.m3u8", MEDIA).unwrap() {
        MediaStep::Append(list) => assert_eq!(list, wanted),
        other => panic!("{other:?}"),
    }
    let locked = "#EXTM3U\n#EXT-X-KEY:METHOD=AES-128\ns.ts\n";
    assert_eq!(
        hls_step("https://h.com/m.m3u8", locked).unwrap_err().message(),
        "unsupported media: encrypted HLS (EXT-X-KEY) is not supported"
    );
    assert_eq!(
        hls_step("https://h.com/m.m3u8", "#EXTM3U\n").unwrap_err().message(),
        "empty HLS playlist"
    );
}

#[test]
fn dash_plans() {
    let streams = streams_of("https://h.com/m/manifest.mpd", MPD_AUDIO).unwrap();
    match dash_step(&streams, false).unwrap() {
        MediaStep::Append(list) => {
            assert_eq!(list, vec!["https://h.com/m/v-1.m4s", "https://h.com/m/v-2.m4s"])
        }
        other => panic!("{other:?}"),
    }
    match dash_step(&streams, true).unwrap() {
        MediaStep::MuxAudio(video, audio) => {
            assert_eq!(video, vec!["https://h.com/m/v-1.m4s", "https://h.com/m/v-2.m4s"]);
            assert_eq!(audio, vec!["https://h.com/m/a-1.m4s", "https://h.com/m/a-2.m4s"])
        }
        other => panic!("{other:?}"),
    }
    assert_eq!(
        dash_step(&Vec::new(), true).unwrap_err().message(),
        "no usable DASH representations"
    );
    let empty = vec![DashStream {
        id: "v".into(),
        bandwidth: 1,
        mime: None,
        init: None,
        segments: Vec::new(),
    }];
    assert_eq!(dash_step(&empty, true).unwrap_err().message(), "empty DASH stream");
}

#[test]
fn playlists_name_their_files() {
    let playlist = "https://h/v.m3u8?x=1";
    assert_eq!(media_dest(playlist, "/dl/out.bin", MediaKind::Hls), "/dl/out.ts");
    assert_eq!(media_dest("https://h/v.MPD", "/dl/out", MediaKind::Dash), "/dl/out.mp4");
    let other = "https://h/watch";
    assert_eq!(media_dest(other, "/dl/v.M3U8", MediaKind::Hls), "/dl/v.ts");
    assert_eq!(media_dest(other, "/dl/v.mpd", MediaKind::Dash), "/dl/v.mp4");
    assert_eq!(media_dest(other, "/dl/v.mkv", MediaKind::Dash), "/dl/v.mkv");
    assert_eq!(media_dest(other, "/dl/mpd", MediaKind::Dash), "/dl/mpd");
    assert!(matches!(playlist_kind("u", "#EXTM3U"), Ok(MediaKind::Hls)));
    assert_eq!(
        playlist_kind("https://h/x", "<html>").unwrap_err().message(),
        "not a media playlist: https://h/x"
    );
    assert_eq!(MAX_PLAYLIST_BYTES, 8 * 1024 * 1024);
    assert!(check_playlist_size(10, 10).is_ok());
    assert_eq!(check_playlist_size(11, 10).unwrap_err().message(), "playlist too large");
}
