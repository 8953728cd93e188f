use ccdm::model::{Chunk, ChunkState, DownloadEntry, DownloadStatus, SegmentState};
use ccdm::names::{
    guess_file_name, id_at, new_id, resolve_dest, sanitize_file_name, Category,
};
use ccdm::paths::{extension_of, join_path, part_path, stem_of, with_extension};

#[test]
fn progress_is_none_without_total() {
    let e = DownloadEntry::new("1".into(), "https://x/y".into(), "y".into());
    assert_eq!(e.progress(), None);
}

#[test]
fn progress_half() {
    let mut e = DownloadEntry::new("1".into(), "https://x/y".into(), "y".into());
    e.total_bytes = Some(100);
    e.downloaded_bytes = 50;
    let (done, total) = e.progress().unwrap();
    assert!((done as f64 / total as f64 - 0.5).abs() < f64::EPSILON);
}

#[test]
fn progress_never_exceeds_the_whole() {
    let mut e = DownloadEntry::new("1".into(), "https://x/y".into(), "y".into());
    e.total_bytes = Some(100);
    e.downloaded_bytes = 250;
    assert_eq!(e.progress(), Some((100, 100)));
    e.total_bytes = Some(0);
    assert_eq!(e.progress(), None);
}

#[test]
fn guess_name_from_url() {
    assert_eq!(guess_file_name("https://host/dir/file.zip?x=1"), "file.zip");
    assert_eq!(guess_file_name("https://host/"), "download.bin");
    assert_eq!(guess_file_name("not a url"), "download.bin");
}

#[test]
fn guess_name_takes_the_last_filled_part() {
    assert_eq!(guess_file_name("https://host/a/b//"), "b");
    assert_eq!(guess_file_name("mailto:someone@example.com"), "download.bin");
}

#[test]
fn category_lookup() {
    let cats = Category::default_categories();
    assert_eq!(Category::for_file_name(&cats, "movie.MP4").unwrap().name, "Video");
    assert!(Category::for_file_name(&cats, "noext").is_none());
}

#[test]
fn names_without_dot_have_no_category() {
    let cats = Category::default_categories();
    assert_eq!(cats.len(), 6);
    assert!(Category::for_file_name(&cats, "ZIP").is_none());
    assert!(Category::for_file_name(&cats, "mp4").is_none());
    assert!(Category::for_file_name(&cats, "a.").is_none());
    assert_eq!(Category::for_file_name(&cats, "a.b.ZIP").unwrap().name, "Compressed");
    assert_eq!(resolve_dest("/dl", "mp4", &cats, true), "/dl/mp4");
    assert_eq!(cats[0].extensions.len(), 10);
    assert_eq!(cats[5].extensions[6], "webp");
}

#[test]
fn sanitize_replaces_illegal_chars() {
    assert_eq!(sanitize_file_name("a<b>:c\"d/e\\f|g?h*i"), "a_b__c_d_e_f_g_h_i");
    assert_eq!(sanitize_file_name("trailing...   "), "trailing");
    assert_eq!(sanitize_file_name("..."), "download.bin");
    assert_eq!(sanitize_file_name("  ok-name.zip  "), "ok-name.zip");
}

#[test]
fn sanitize_strips_dots_and_any_space() {
    assert_eq!(sanitize_file_name("a.\u{3000}"), "a");
    assert_eq!(sanitize_file_name("a.\u{a0}"), "a");
    assert_eq!(sanitize_file_name("\u{a0} a .\u{a0}. \u{3000}"), "a");
    assert_eq!(sanitize_file_name("\u{3000}.\u{a0}"), "download.bin");
    assert_eq!(sanitize_file_name("tab\there\u{7f}"), "tab_here_");
    let once = sanitize_file_name(" x<y .");
    assert_eq!(sanitize_file_name(&once), once);
}

#[test]
fn with_plan_covers_total() {
    let e = DownloadEntry::with_plan("x".into(), "https://h/f".into(), "f".into(), Some(10), 3);
    assert_eq!(e.chunks.len(), 3);
    let covered: u64 = e.chunks.iter().map(|c| c.size.unwrap()).sum();
    assert_eq!(covered, 10);
    assert_eq!(e.chunks[0].id, "x#0");
}

#[test]
fn with_plan_needs_a_size() {
    let e = DownloadEntry::with_plan("x".into(), "https://h/f".into(), "f".into(), None, 3);
    assert!(e.chunks.is_empty());
    let e = DownloadEntry::with_plan("x".into(), "https://h/f".into(), "f".into(), Some(0), 3);
    assert!(e.chunks.is_empty());
    let e = DownloadEntry::with_plan("x".into(), "https://h/f".into(), "f".into(), Some(5), 0);
    assert_eq!(e.chunks.len(), 1);
    assert_eq!(e.chunks[0].size, Some(5));
}

#[test]
fn chunk_counts_what_is_missing() {
    let mut c = Chunk::new("x#0".into(), "https://h/f".into(), 5, Some(10));
    assert_eq!(c.state, ChunkState::Ready);
    assert_eq!(c.remaining(), Some(10));
    c.downloaded = 4;
    assert_eq!(c.remaining(), Some(6));
    c.downloaded = 40;
    assert_eq!(c.remaining(), Some(0));
    c.size = None;
    assert_eq!(c.remaining(), None);
}

#[test]
fn entry_sums_its_chunks() {
    let mut e = DownloadEntry::with_plan("x".into(), "https://h/f".into(), "f".into(), Some(10), 3);
    e.chunks[0].downloaded = 4;
    e.chunks[2].downloaded = 1;
    e.sync_from_chunks();
    assert_eq!(e.downloaded_bytes, 5);
    let copy = e.copy();
    assert_eq!(copy.chunks[1].id, "x#1");
    assert_eq!(copy.chunks[1].offset, 4);
}

#[test]
fn states_have_defaults() {
    assert_eq!(DownloadStatus::default(), DownloadStatus::Queued);
    assert_eq!(ChunkState::default(), ChunkState::Ready);
    assert_eq!(SegmentState::default(), SegmentState::NotStarted);
}

#[test]
fn resolve_dest_organizes_by_category() {
    let cats = Category::default_categories();
    let dir = "/dl";
    assert_eq!(resolve_dest(dir, "movie.mkv", &cats, true), "/dl/Video/movie.mkv");
    assert_eq!(resolve_dest(dir, "movie.mkv", &cats, false), "/dl/movie.mkv");
    assert_eq!(resolve_dest(dir, "weird?.sh", &cats, true), "/dl/weird_.sh");
}

#[test]
fn resolve_dest_stays_in_its_directory() {
    let cats = Category::default_categories();
    assert_eq!(resolve_dest("/dl/", "../../etc/passwd", &cats, true), "/dl/.._.._etc_passwd");
    assert_eq!(resolve_dest("", "..", &cats, false), "download.bin");
}

#[test]
fn ids_have_prefix_time_and_process() {
    assert_eq!(id_at("host", 1234, 7), "host-1234-7");
    let id = new_id("gui", 42);
    assert!(id.starts_with("gui-"));
    assert!(id.ends_with("-42"));
    let millis: u128 = id["gui-".len()..id.len() - "-42".len()].parse().unwrap();
    assert!(millis > 0);
}

#[test]
fn paths_behave_like_unix_paths() {
    let paths = [
        "/dl/a.mkv", "a", "a.", ".bashrc", "..a", "a.b.c", "/", "", ".", "..", "a/..", "a/.",
        "a/./", "a.x//", "/dl.d/file", "dir/.hidden.txt", "./x.y", "a//b.c", "...", "/..x",
    ];
    for p in paths {
        let path = std::path::Path::new(p);
        assert_eq!(
            extension_of(p).as_deref(),
            path.extension().map(|e| e.to_str().unwrap()),
            "extension of {p:?}"
        );
        assert_eq!(
            stem_of(p).as_deref(),
            path.file_stem().map(|e| e.to_str().unwrap()),
            "stem of {p:?}"
        );
        for ext in ["mp3", "audio.tmp", ""] {
            let mut changed = path.to_path_buf();
            changed.set_extension(ext);
            assert_eq!(
                with_extension(p, ext),
                changed.to_str().unwrap(),
                "{p:?} with {ext:?}"
            );
        }
        for part in ["x", "/abs", "", "y/z"] {
            assert_eq!(
                join_path(p, part),
                path.join(part).to_str().unwrap(),
                "{p:?} joined with {part:?}"
            );
        }
    }
}

#[test]
fn part_path_appends_index() {
    let p = part_path("/tmp/a.bin", 2);
    assert_eq!(p, "/tmp/a.bin.part2");
}
