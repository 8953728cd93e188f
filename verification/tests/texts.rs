use ccdm::error::CcdmError;
use ccdm::i18n::{en, lang_code, t, Overrides, DEFAULT_LANG};
use ccdm::update::{
    is_newer, latest_release, make_release, read_release, release_url, RELEASE_MEDIA_TYPE,
};

#[test]
fn english_defaults() {
    let none = Overrides::new();
    assert_eq!(t(&none, "en", "row.pause"), "Pause");
    assert_eq!(t(&none, "xx", "row.pause"), "Pause");
    assert_eq!(t(&none, "en", "no.such.key"), "no.such.key");
}

#[test]
fn templates_fill() {
    let none = Overrides::new();
    let text = ccdm::i18n::format(&none, "en", "c.summary", &[("ok", "2"), ("failed", "0")]);
    assert_eq!(text, "finished: 2 ok, 0 failed");
}

#[test]
fn external_file_overrides() {
    let mut all = Overrides::new();
    all.load_file("fr", r#"{"row.pause": "PauseFR", "only.fr": "x"}"#).unwrap();
    assert_eq!(t(&all, "fr", "row.pause"), "PauseFR");
    assert_eq!(t(&all, "fr", "row.start"), "Start");
}

#[test]
fn later_files_are_merged_over_earlier_ones() {
    let mut all = Overrides::new();
    all.load_file("fr", r#"{"row.pause": "un", "row.start": "deux"}"#).unwrap();
    all.load_file("fr", r#"{"row.pause": "trois"}"#).unwrap();
    all.load_file("en", r#"{"row.pause": "ignored"}"#).unwrap();
    assert_eq!(all.override_get("fr", "row.pause").as_deref(), Some("trois"));
    assert_eq!(all.override_get("fr", "row.start").as_deref(), Some("deux"));
    assert_eq!(all.override_get("de", "row.start"), None);
    assert_eq!(t(&all, DEFAULT_LANG, "row.pause"), "Pause");
    let bad = all.load_file("fr", r#"{"row.pause": 1}"#);
    assert!(matches!(bad, Err(CcdmError::Other(_))));
    assert_eq!(t(&all, "fr", "row.pause"), "trois");
}

#[test]
fn every_group_of_texts_is_there() {
    assert_eq!(en("app.title"), Some("ccdwonloadmanager"));
    assert_eq!(en("cm.light"), Some("light"));
    assert_eq!(en("st.failed"), Some("failed"));
    assert_eq!(en("n.video_only"), Some("{file} is video-only (CLI `video` merges audio)"));
    assert_eq!(en("c.yt_muxing"), Some("muxing video + audio…"));
    assert_eq!(en("app.live"), Some("{t} — live queue"));
    assert_eq!(en(""), None);
}

#[test]
fn placeholders_are_filled_in_turn() {
    let none = Overrides::new();
    assert_eq!(ccdm::i18n::format(&none, "en", "{a}{b}{a}", &[("a", "{b}"), ("b", "x")]), "xxx");
    assert_eq!(ccdm::i18n::format(&none, "en", "{a}", &[]), "{a}");
}

#[test]
fn language_files_are_named_by_their_language() {
    assert_eq!(lang_code("/cfg/lang/fr.json").as_deref(), Some("fr"));
    assert_eq!(lang_code("/cfg/lang/pt.br.json").as_deref(), Some("pt.br"));
    assert_eq!(lang_code("/cfg/lang/fr.JSON"), None);
    assert_eq!(lang_code("/cfg/lang/fr"), None);
    assert_eq!(lang_code("/cfg/lang/.json"), None);
}

#[test]
fn newer_logic() {
    assert!(is_newer("0.8.0", "v0.9"));
    assert!(is_newer("0.9.0", "0.9.1"));
    assert!(!is_newer("0.9.0", "0.9.0"));
    assert!(!is_newer("0.10.0", "0.9.9"));
    assert!(!is_newer("1.0", "0.99.99"));
}

#[test]
fn odd_versions() {
    assert!(!is_newer("1.0", "1.0.0"));
    assert!(!is_newer("1.0.0", "1"));
    assert!(is_newer("", "0.0.1"));
    assert!(!is_newer(" vv2 ", "2"));
    assert!(is_newer("1.beta", "1.1"));
    assert!(!is_newer("0", "99999999999999999999"));
}

#[test]
fn releases_are_read_from_json() {
    assert_eq!(
        release_url("owner/name"),
        "https://api.github.com/repos/owner/name/releases/latest"
    );
    assert_eq!(RELEASE_MEDIA_TYPE, "application/vnd.github+json");
    let release =
        latest_release(r#"{"tag_name":"v1.2","name":"One","html_url":"https://x/r","id":7}"#)
            .unwrap();
    assert_eq!(release.tag, "v1.2");
    assert_eq!(release.name, "One");
    assert_eq!(release.url, "https://x/r");
    let bare = latest_release(r#"{"tag_name":"v1.2","name":null}"#).unwrap();
    assert_eq!(bare.name, "");
    assert_eq!(latest_release(r#"{"tag_name":7}"#).unwrap_err().message(), "no releases found");
    assert_eq!(latest_release("[]").unwrap_err().message(), "no releases found");
    assert!(matches!(latest_release("{"), Err(CcdmError::Other(_))));
    assert_eq!(read_release(Err("broken".into())).unwrap_err().message(), "broken");
    assert_eq!(make_release(Some("t"), None, Some("u")).unwrap().url, "u");
}
