use ccdm::error::CcdmError;
use ccdm::http::{
    accepts_ranges, check_partial, check_url, content_length_of, content_range_total,
    disposition_filename, mime_type, percent, plan_parts, probe_get, probe_head, range_header,
    read_get, read_head, resume_header, resume_plan, segmented_total, url_outcome, Headers,
    Pending, ProbeResult, Purpose, Reply,
};
use ccdm::segmented::plan_segments;
use ccdm::urls::UrlParts;

#[test]
fn parses_content_range_total() {
    assert_eq!(content_range_total(Some("bytes 0-0/12345")), Some(12345));
}

#[test]
fn parses_disposition_names() {
    assert_eq!(
        disposition_filename(Some("attachment; filename=\"x.zip\"")).as_deref(),
        Some("x.zip")
    );
    assert_eq!(
        disposition_filename(Some("attachment; filename*=UTF-8''v%C3%ADdeo.mp4")).as_deref(),
        Some("v%C3%ADdeo.mp4")
    );
}

#[test]
fn odd_dispositions() {
    let name = |v: &str| disposition_filename(Some(v));
    assert_eq!(name("attachment; filename=a.zip; size=3").as_deref(), Some("a.zip"));
    assert_eq!(name("attachment; filename*=plain.zip").as_deref(), Some("plain.zip"));
    assert_eq!(
        name("attachment; filename*=UTF-8''\"\"; filename=\"b.zip\"").as_deref(),
        Some("b.zip")
    );
    assert_eq!(
        name("attachment; filename*=UTF-8''; filename=b.zip").as_deref(),
        Some("b.zip")
    );
    assert_eq!(
        name("attachment; filename*=UTF-8''v.mp4; filename=\"w.mp4\"").as_deref(),
        Some("v.mp4")
    );
    assert_eq!(
        name("attachment; filename=\"w.mp4\"; filename*=UTF-8''v.mp4").as_deref(),
        Some("v.mp4")
    );
    assert_eq!(name("attachment; filename=\"x.zip\"; size=3").as_deref(), Some("x.zip"));
    assert_eq!(name("attachment; filename=\"a;b.zip\"").as_deref(), Some("a;b.zip"));
    assert_eq!(name("attachment; filename=\"open.zip").as_deref(), Some("open.zip"));
    assert_eq!(
        name("attachment; filename=\"a\\\"b.zip\"; size=3").as_deref(),
        Some("a\\\"b.zip")
    );
    assert_eq!(name("attachment; filename=\"\""), None);
    assert_eq!(name("inline"), None);
    assert_eq!(disposition_filename(None), None);
}

#[test]
fn odd_headers() {
    assert_eq!(content_length_of(Some(" 42 ")), Some(42));
    assert_eq!(content_length_of(Some("-1")), None);
    assert_eq!(content_length_of(Some("18446744073709551616")), None);
    assert_eq!(content_length_of(None), None);
    assert!(accepts_ranges(Some("Bytes")));
    assert!(!accepts_ranges(Some("none")));
    assert!(!accepts_ranges(None));
    assert_eq!(content_range_total(Some("bytes 0-0/*")), None);
    assert_eq!(content_range_total(Some("bytes 0-0")), None);
    assert_eq!(mime_type(Some("text/html; charset=utf-8")).as_deref(), Some("text/html"));
    assert_eq!(mime_type(Some(" ; x")), None);
    assert_eq!(mime_type(None), None);
}

fn reply(success: bool, partial: bool) -> Reply {
    Reply {
        url: "https://h.com/dir/file.zip".into(),
        status: if success { "200 OK".into() } else { "404 Not Found".into() },
        success,
        partial,
        headers: Headers {
            content_length: None,
            accept_ranges: None,
            content_range: None,
            content_disposition: None,
            content_type: None,
        },
    }
}

#[test]
fn head_is_enough_when_it_says_something() {
    let mut r = reply(true, false);
    assert!(probe_head(&r).is_none());
    r.headers.content_length = Some("100".into());
    r.headers.content_type = Some("application/zip".into());
    let info = probe_head(&r).unwrap();
    assert_eq!(info.final_url, "https://h.com/dir/file.zip");
    assert_eq!(info.file_name, "file.zip");
    assert_eq!(info.total_bytes, Some(100));
    assert!(!info.supports_ranges);
    assert_eq!(info.content_type.as_deref(), Some("application/zip"));
    r.headers.content_length = None;
    r.headers.accept_ranges = Some("bytes".into());
    r.headers.content_disposition = Some("attachment; filename=named.zip".into());
    let info = probe_head(&r).unwrap();
    assert!(info.supports_ranges);
    assert_eq!(info.file_name, "named.zip");
    r.success = false;
    assert!(probe_head(&r).is_none());
}

#[test]
fn ranged_get_tells_the_rest() {
    let mut r = reply(true, true);
    r.headers.content_range = Some("bytes 0-0/500".into());
    r.headers.content_length = Some("1".into());
    let info = probe_get(&r).unwrap();
    assert_eq!(info.total_bytes, Some(500));
    assert!(info.supports_ranges);
    r.headers.content_range = Some("bytes 0-0/*".into());
    let info = probe_get(&r).unwrap();
    assert_eq!(info.total_bytes, None);
    assert!(info.supports_ranges);
    let mut r = reply(true, false);
    r.headers.content_length = Some("500".into());
    let info = probe_get(&r).unwrap();
    assert_eq!(info.total_bytes, Some(500));
    assert!(!info.supports_ranges);
    assert_eq!(
        probe_get(&reply(false, false)).unwrap_err().message(),
        "http error: probe failed with HTTP 404 Not Found"
    );
}

#[test]
fn names_come_from_the_parsed_url() {
    let mut r = reply(true, true);
    let parsed = Ok(UrlParts {
        text: "https://h.com/x.iso".into(),
        host: Some("h.com".into()),
        segments: Some(vec!["x.iso".into(), "".into()]),
    });
    assert_eq!(read_get(&r, &parsed).unwrap().file_name, "x.iso");
    assert_eq!(read_get(&r, &Err("none".into())).unwrap().file_name, "download.bin");
    assert!(read_head(&r, &parsed).is_none());
    r.headers.accept_ranges = Some("Bytes".into());
    assert_eq!(read_head(&r, &parsed).unwrap().file_name, "x.iso");
    assert!(url_outcome(parsed).is_ok());
    assert_eq!(url_outcome(Err("none".into())).unwrap_err().message(), "invalid url: none");
}

#[test]
fn urls_are_checked_first() {
    assert!(check_url("https://h.com/").is_ok());
    assert!(matches!(check_url("not a url"), Err(CcdmError::InvalidUrl(_))));
    assert_eq!(
        check_url("not a url").unwrap_err().message(),
        "invalid url: relative URL without a base"
    );
}

#[test]
fn failures_name_their_request() {
    let cases = [
        (Purpose::Probe, "http error: probe failed with HTTP 500"),
        (Purpose::Download, "http error: download failed with HTTP 500"),
        (Purpose::Playlist, "http error: playlist fetch failed with HTTP 500"),
        (Purpose::Segment, "http error: segment fetch failed with HTTP 500"),
        (Purpose::Release, "http error: release check failed with HTTP 500"),
    ];
    for (purpose, message) in cases {
        assert!(purpose.check(true, "200 OK").is_ok());
        assert_eq!(purpose.check(false, "500").unwrap_err().message(), message);
    }
    assert!(check_partial(true).is_ok());
    assert!(matches!(check_partial(false), Err(CcdmError::RangeNotSupported)));
}

#[test]
fn range_headers_are_exact() {
    assert_eq!(resume_header(0), None);
    assert_eq!(resume_header(10).as_deref(), Some("bytes=10-"));
    assert_eq!(range_header(3, 99), "bytes=3-99");
}

#[test]
fn resume_appends_or_starts_over() {
    let plan = resume_plan(10, true, true, "206 Partial Content", Some(90)).unwrap();
    assert!(plan.append && !plan.discard);
    assert_eq!(plan.base, 10);
    assert_eq!(plan.total, Some(100));
    let plan = resume_plan(10, true, false, "200 OK", Some(100)).unwrap();
    assert!(!plan.append && plan.discard);
    assert_eq!(plan.base, 0);
    assert_eq!(plan.total, Some(100));
    let plan = resume_plan(0, true, false, "200 OK", None).unwrap();
    assert!(!plan.append && !plan.discard);
    assert_eq!(plan.total, None);
    assert_eq!(
        resume_plan(0, false, false, "416", None).unwrap_err().message(),
        "http error: download failed with HTTP 416"
    );
}

fn info(total: Option<u64>, ranges: bool) -> ProbeResult {
    ProbeResult {
        final_url: "https://h/f".into(),
        file_name: "f".into(),
        total_bytes: total,
        supports_ranges: ranges,
        content_type: None,
    }
}

#[test]
fn segments_need_size_and_ranges() {
    assert_eq!(segmented_total(&info(Some(10), true), 2), Some(10));
    assert_eq!(segmented_total(&info(Some(10), true), 1), None);
    assert_eq!(segmented_total(&info(Some(10), false), 2), None);
    assert_eq!(segmented_total(&info(Some(0), true), 2), None);
    assert_eq!(segmented_total(&info(None, true), 2), None);
}

#[test]
fn parts_are_resumed_one_by_one() {
    // Ranges: 0-3, 4-6, 7-9.
    let plan = plan_parts(10, 3, &vec![4, 1, 9]);
    assert_eq!(plan.downloaded, 5);
    assert_eq!(plan.stale, vec![2]);
    assert_eq!(
        plan.pending,
        vec![
            Pending { part: 1, start: 5, end: 6 },
            Pending { part: 2, start: 7, end: 9 },
        ]
    );
}

#[test]
fn resumed_parts_are_the_file() {
    let file: Vec<u8> = (0..50u8).collect();
    let have = vec![3u64, 0, 10, 99, 7];
    let ranges = plan_segments(50, 5);
    let mut parts: Vec<Vec<u8>> = Vec::new();
    for (i, (start, end)) in ranges.iter().enumerate() {
        let want = end - start + 1;
        let kept = if have[i] > want { 0 } else { have[i] };
        parts.push(file[*start as usize..(*start + kept) as usize].to_vec());
    }
    let plan = plan_parts(50, 5, &have);
    let mut fetched = 0;
    for p in &plan.pending {
        parts[p.part].extend_from_slice(&file[p.start as usize..=p.end as usize]);
        fetched += p.end - p.start + 1;
    }
    assert_eq!(plan.downloaded + fetched, 50);
    assert_eq!(parts.concat(), file);
}

#[test]
fn percent_is_whole_and_bounded() {
    assert_eq!(percent(50, Some(200)), Some(25));
    assert_eq!(percent(500, Some(200)), Some(100));
    assert_eq!(percent(1, Some(0)), None);
    assert_eq!(percent(1, None), None);
    assert_eq!(percent(u64::MAX - 1, Some(u64::MAX)), Some(99));
}
