use ccdm::convert::{
    convert_args, convert_outcome, convertible_to_mp3, ffmpeg_available, ffmpeg_binary,
    ffmpeg_candidate, mux_args, mux_outcome, output_path, require_ffmpeg, tools_dir, ConvertTarget,
};
use ccdm::error::CcdmError;

#[test]
fn target_roundtrip() {
    assert_eq!(ConvertTarget::parse("MP3"), Some(ConvertTarget::Mp3));
    assert_eq!(ConvertTarget::parse("mp4"), Some(ConvertTarget::Mp4));
    assert_eq!(ConvertTarget::parse("avi"), None);
    assert_eq!(ConvertTarget::Mp3.extension(), "mp3");
}

#[test]
fn output_beside_input() {
    let out = output_path("/dl/a.mkv", ConvertTarget::Mp3);
    assert_eq!(out, "/dl/a.mp3");
}

#[test]
fn convertible_matrix() {
    assert!(convertible_to_mp3("movie.MKV"));
    assert!(convertible_to_mp3("song.flac"));
    assert!(!convertible_to_mp3("doc.pdf"));
    assert!(!convertible_to_mp3("noext"));
}

#[test]
fn odd_targets_and_names() {
    assert_eq!(ConvertTarget::parse("mP4"), Some(ConvertTarget::Mp4));
    assert_eq!(ConvertTarget::parse("ｍp3"), None);
    assert_eq!(ConvertTarget::parse("mp3 "), None);
    assert!(!convertible_to_mp3("mp3"));
    assert!(convertible_to_mp3(".mp3"));
    // No character beyond ASCII has a lower case within `mp34`.
    for c in ('\u{80}'..=char::MAX).filter(|c| c.to_lowercase().any(|l| "mp34".contains(l))) {
        panic!("{c:?}");
    }
}

#[test]
fn installed_ffmpeg_comes_first() {
    assert_eq!(tools_dir(Some("/cfg")).as_deref(), Some("/cfg/ccdm/bin"));
    assert_eq!(tools_dir(None), None);
    assert_eq!(ffmpeg_candidate(Some("/t"), false).as_deref(), Some("/t/ffmpeg"));
    assert_eq!(ffmpeg_candidate(Some("/t"), true).as_deref(), Some("/t/ffmpeg.exe"));
    assert_eq!(
        ffmpeg_binary(Some("/t/ffmpeg".into()), true, true).as_deref(),
        Some("/t/ffmpeg")
    );
    assert_eq!(ffmpeg_binary(None, true, true).as_deref(), Some("ffmpeg"));
    assert_eq!(ffmpeg_binary(None, false, true).as_deref(), Some("ffmpeg.exe"));
    assert_eq!(ffmpeg_binary(None, false, false), None);
    assert!(ffmpeg_available(None, false, true));
    assert!(!ffmpeg_available(None, false, false));
}

#[test]
fn conversion_is_described() {
    assert_eq!(
        convert_args("/dl/a.mkv", ConvertTarget::Mp3),
        vec!["-y", "-i", "/dl/a.mkv", "-vn", "-codec:a", "libmp3lame", "-q:a", "4", "/dl/a.mp3"]
    );
    assert_eq!(
        convert_args("/dl/a.mkv", ConvertTarget::Mp4),
        vec!["-y", "-i", "/dl/a.mkv", "-c", "copy", "/dl/a.mp4"]
    );
    assert_eq!(
        mux_args("v", "a", "o"),
        vec!["-y", "-i", "v", "-i", "a", "-c", "copy", "o"]
    );
}

#[test]
fn conversion_failure_shows_the_last_lines() {
    assert_eq!(
        convert_outcome("a.mkv", ConvertTarget::Mp3, true, "noise").unwrap(),
        "a.mp3"
    );
    let err = convert_outcome("a.mkv", ConvertTarget::Mp3, false, "1\n2\r\n3\n4\n5\n6\n");
    assert_eq!(err.unwrap_err().message(), "ffmpeg failed: 2 | 3 | 4 | 5 | 6");
    assert!(mux_outcome(true, "").is_ok());
    assert_eq!(
        mux_outcome(false, "exit status: 1").unwrap_err().message(),
        "ffmpeg mux failed: exit status: 1"
    );
    assert!(matches!(require_ffmpeg(None), Err(CcdmError::Other(_))));
    assert_eq!(require_ffmpeg(Some("f".into())).unwrap(), "f");
}
