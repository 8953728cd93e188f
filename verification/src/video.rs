//! Video-page resolution via yt-dlp: watch pages are not files, so resolving
//! is left to a `yt-dlp` binary and downloading stays in the engine.

use vstd::prelude::*;

use crate::error::{concat, CcdmError, ErrorView};
use crate::json::{self, list_at, parse_json_bytes, text_at, Json};
use crate::text::{
    self, append, chars_of, copy_opt, ends_with, lowered, same, same_text, string_of, tail_of,
    trimmed,
};
use crate::urls::{self, parse_url, UrlParts, UrlView};

verus! {

/// Watch-page hosts that are handed to yt-dlp instead of probing as files.
pub open spec fn video_hosts() -> Seq<Seq<char>> {
    seq![
        "youtube.com"@,
        "youtu.be"@,
        "vimeo.com"@,
        "dailymotion.com"@,
        "twitch.tv"@,
        "facebook.com"@,
        "instagram.com"@,
        "tiktok.com"@,
        "x.com"@,
    ]
}

/// Whether `host` is `site` or one of its subdomains.
pub open spec fn belongs_to(host: Seq<char>, site: Seq<char>) -> bool {
    host == site || ("."@ + site).is_suffix_of(host)
}

/// Whether a parsed URL is of a watch page.
pub open spec fn watch_page(parsed: Result<UrlView, Seq<char>>) -> bool {
    match parsed {
        Ok(u) => match u.host {
            Some(h) => exists|i: int|
                0 <= i < video_hosts().len() && belongs_to(text::lower(h), #[trigger] video_hosts()[i]),
            None => false,
        },
        Err(_) => false,
    }
}

fn on_site(host: &[char], site: &str) -> (r: bool)
    ensures
        r == belongs_to(host@, site@),
{
    let dotted = concat(".", site);
    same(host, site) || ends_with(host, dotted.as_str())
}

/// Whether a parsed URL is of a watch page.
pub fn is_watch_page(parsed: &Result<UrlParts, String>) -> (r: bool)
    ensures
        r == watch_page(urls::parts_view(*parsed)),
{
    let u = match parsed {
        Ok(u) => u,
        Err(_) => {
            return false;
        },
    };
    let host = match &u.host {
        Some(h) => lowered(chars_of(h.as_str()).as_slice()),
        None => {
            return false;
        },
    };
    let sites: Vec<&str> = vec![
        "youtube.com",
        "youtu.be",
        "vimeo.com",
        "dailymotion.com",
        "twitch.tv",
        "facebook.com",
        "instagram.com",
        "tiktok.com",
        "x.com",
    ];
    let ghost all = video_hosts();
    assert forall|j: int| 0 <= j < all.len() implies (#[trigger] all[j]) == sites@[j]@ by {}
    let mut i: usize = 0;
    while i < sites.len()
        invariant
            i <= sites@.len(),
            all == video_hosts(),
            watch_page(urls::parts_view(*parsed)) == (exists|j: int|
                0 <= j < all.len() && belongs_to(host@, #[trigger] all[j])),
            all.len() == sites@.len(),
            forall|j: int| 0 <= j < all.len() ==> (#[trigger] all[j]) == sites@[j]@,
            forall|j: int| 0 <= j < i ==> !belongs_to(host@, #[trigger] all[j]),
        decreases sites.len() - i,
    {
        if on_site(host.as_slice(), sites[i]) {
            assert(belongs_to(host@, all[i as int]));
            return true;
        }
        i = i + 1;
    }
    false
}

/// Whether `url` looks like a watch page (not a direct file).
pub fn is_video_page(url: &str) -> (r: bool)
    ensures
        r == watch_page(urls::url_parse(url@)),
{
    is_watch_page(&parse_url(url))
}

/// The heights that a quality can name.
pub open spec fn height_of(quality: Seq<char>) -> Option<nat> {
    if quality == "1080p"@ || quality == "1080"@ {
        Some(1080)
    } else if quality == "720p"@ || quality == "720"@ {
        Some(720)
    } else if quality == "480p"@ || quality == "480"@ {
        Some(480)
    } else {
        None
    }
}

/// Whether a quality asks for audio alone.
pub open spec fn wants_audio(quality: Seq<char>) -> bool {
    quality == "audio"@ || quality == "bestaudio"@ || quality == "mp3"@
}

/// The format that prefers a single file.
pub open spec fn single_format(quality: Seq<char>) -> Seq<char> {
    let q = text::lower(quality);
    if height_of(q) == Some(1080nat) {
        "b[height<=1080]/b"@
    } else if height_of(q) == Some(720nat) {
        "b[height<=720]/b"@
    } else if height_of(q) == Some(480nat) {
        "b[height<=480]/b"@
    } else if wants_audio(q) {
        "ba"@
    } else {
        "b"@
    }
}

/// yt-dlp `-f` specs preferring a **single file** (GUI auto-resolve).
pub fn single_file_spec(quality: &str) -> (r: &str)
    ensures
        r@ == single_format(quality@),
{
    let low = lowered(chars_of(quality).as_slice());
    let q = low.as_slice();
    if same(q, "1080p") || same(q, "1080") {
        "b[height<=1080]/b"
    } else if same(q, "720p") || same(q, "720") {
        "b[height<=720]/b"
    } else if same(q, "480p") || same(q, "480") {
        "b[height<=480]/b"
    } else if same(q, "audio") || same(q, "bestaudio") || same(q, "mp3") {
        "ba"
    } else {
        "b"
    }
}

/// The format that allows merged streams; what names no quality is a format
/// itself.
pub open spec fn full_format(quality: Seq<char>) -> Seq<char> {
    let q = text::lower(quality);
    if q == "best"@ {
        "bv*+ba/b"@
    } else if height_of(q) == Some(1080nat) {
        "bv*[height<=1080]+ba/b"@
    } else if height_of(q) == Some(720nat) {
        "bv*[height<=720]+ba/b"@
    } else if height_of(q) == Some(480nat) {
        "bv*[height<=480]+ba/b"@
    } else if wants_audio(q) {
        "ba/b"@
    } else {
        quality
    }
}

/// yt-dlp `-f` specs allowing merged streams (CLI `video` muxes them).
/// Unknown values pass through untouched as custom specs.
pub fn full_spec(quality: &str) -> (r: &str)
    ensures
        r@ == full_format(quality@),
{
    let low = lowered(chars_of(quality).as_slice());
    let q = low.as_slice();
    if same(q, "best") {
        "bv*+ba/b"
    } else if same(q, "1080p") || same(q, "1080") {
        "bv*[height<=1080]+ba/b"
    } else if same(q, "720p") || same(q, "720") {
        "bv*[height<=720]+ba/b"
    } else if same(q, "480p") || same(q, "480") {
        "bv*[height<=480]+ba/b"
    } else if same(q, "audio") || same(q, "bestaudio") || same(q, "mp3") {
        "ba/b"
    } else {
        quality
    }
}

/// Qualities cycled by the GUI button.
pub const QUALITIES: [&'static str; 5] = ["best", "1080p", "720p", "480p", "audio"];

/// A resolved watch page: direct download URL(s) + title.
#[derive(Debug, Clone)]
pub struct ResolvedMedia {
    pub title: String,
    pub ext: String,
    pub direct_url: Option<String>,
    pub video_url: Option<String>,
    pub audio_url: Option<String>,
}

/// The texts of a [`ResolvedMedia`].
#[verifier::ext_equal]
pub struct ResolvedView {
    pub title: Seq<char>,
    pub ext: Seq<char>,
    pub direct_url: Option<Seq<char>>,
    pub video_url: Option<Seq<char>>,
    pub audio_url: Option<Seq<char>>,
}

impl View for ResolvedMedia {
    type V = ResolvedView;

    open spec fn view(&self) -> ResolvedView {
        ResolvedView {
            title: self.title@,
            ext: self.ext@,
            direct_url: text::opt_view(self.direct_url),
            video_url: text::opt_view(self.video_url),
            audio_url: text::opt_view(self.audio_url),
        }
    }
}

impl ResolvedView {
    /// The one URL to play: the direct one, else that of the video, else that
    /// of the audio.
    pub open spec fn playable(self) -> Option<Seq<char>> {
        match (self.direct_url, self.video_url) {
            (Some(u), _) => Some(u),
            (None, Some(u)) => Some(u),
            (None, None) => self.audio_url,
        }
    }

    /// Only separate video+audio streams exist.
    pub open spec fn split_streams(self) -> bool {
        self.direct_url is None && self.video_url is Some && self.audio_url is Some
    }
}

impl ResolvedMedia {
    /// Single download URL when no muxing is required, else the
    /// video-only stream (GUI fallback; CLI merges properly).
    pub fn playback_url(&self) -> (r: Option<&str>)
        ensures
            text::str_view(r) == self@.playable(),
    {
        if let Some(u) = &self.direct_url {
            return Some(u.as_str());
        }
        if let Some(u) = &self.video_url {
            return Some(u.as_str());
        }
        match &self.audio_url {
            Some(u) => Some(u.as_str()),
            None => None,
        }
    }

    /// True when only separate video+audio streams exist.
    pub fn needs_mux(&self) -> (r: bool)
        ensures
            r == self@.split_streams(),
    {
        self.direct_url.is_none() && self.video_url.is_some() && self.audio_url.is_some()
    }

    /// File extension for the GUI auto-resolve download.
    pub fn playback_ext(&self) -> (r: &str)
        ensures
            r@ == (if self@.direct_url is Some {
                self@.ext
            } else {
                "mp4"@
            }),
    {
        if self.direct_url.is_some() {
            self.ext.as_str()
        } else {
            "mp4"
        }
    }
}

/// What is known of the yt-dlp binaries: whether the configured path exists,
/// whether it answers as a command, and whether `yt-dlp` and `yt-dlp.exe` do.
#[derive(Debug, Clone, Copy, PartialEq, Eq, Structural)]
pub struct YtdlpProbe {
    pub exists: bool,
    pub runs: bool,
    pub plain_runs: bool,
    pub exe_runs: bool,
}

/// The configured path, trimmed, where it is not blank.
pub open spec fn configured_path(configured: Option<Seq<char>>) -> Option<Seq<char>> {
    match configured {
        Some(p) => if text::trim(p).len() > 0 {
            Some(text::trim(p))
        } else {
            None
        },
        None => None,
    }
}

/// The yt-dlp that runs: the configured one and no other where one is
/// configured, else the first of the names on the PATH that answers.
pub open spec fn ytdlp_choice(configured: Option<Seq<char>>, probe: YtdlpProbe) -> Option<
    Seq<char>,
> {
    match configured_path(configured) {
        Some(path) => if probe.exists || probe.runs {
            Some(path)
        } else {
            None
        },
        None => if probe.plain_runs {
            Some("yt-dlp"@)
        } else if probe.exe_runs {
            Some("yt-dlp.exe"@)
        } else {
            None
        },
    }
}

/// Locate the yt-dlp binary: configured path first, else PATH probe.
pub fn find_ytdlp(configured: Option<&str>, probe: YtdlpProbe) -> (r: Option<String>)
    ensures
        text::opt_view(r) == ytdlp_choice(text::str_view(configured), probe),
{
    if let Some(raw) = configured {
        let all = chars_of(raw);
        let path = trimmed(all.as_slice());
        if path.len() > 0 {
            return if probe.exists || probe.runs {
                Some(string_of(path))
            } else {
                None
            };
        }
    }
    if probe.plain_runs {
        Some("yt-dlp".to_string())
    } else if probe.exe_runs {
        Some("yt-dlp.exe".to_string())
    } else {
        None
    }
}

/// The most characters of a title.
pub const MAX_TITLE: usize = 120;

/// One of the formats of a page that were asked for.
#[derive(Debug, Clone)]
pub struct FormatInfo {
    pub url: Option<String>,
    pub vcodec: Option<String>,
    pub acodec: Option<String>,
}

/// The texts of a [`FormatInfo`].
#[verifier::ext_equal]
pub struct FormatView {
    pub url: Option<Seq<char>>,
    pub vcodec: Option<Seq<char>>,
    pub acodec: Option<Seq<char>>,
}

impl View for FormatInfo {
    type V = FormatView;

    open spec fn view(&self) -> FormatView {
        FormatView {
            url: text::opt_view(self.url),
            vcodec: text::opt_view(self.vcodec),
            acodec: text::opt_view(self.acodec),
        }
    }
}

pub open spec fn formats_view(v: Seq<FormatInfo>) -> Seq<FormatView> {
    Seq::new(v.len(), |i: int| v[i]@)
}

/// What yt-dlp says of a page.
#[derive(Debug, Clone)]
pub struct PageInfo {
    pub title: Option<String>,
    pub ext: Option<String>,
    pub url: Option<String>,
    pub formats: Vec<FormatInfo>,
}

/// The texts of a [`PageInfo`].
#[verifier::ext_equal]
pub struct PageView {
    pub title: Option<Seq<char>>,
    pub ext: Option<Seq<char>>,
    pub url: Option<Seq<char>>,
    pub formats: Seq<FormatView>,
}

impl View for PageInfo {
    type V = PageView;

    open spec fn view(&self) -> PageView {
        PageView {
            title: text::opt_view(self.title),
            ext: text::opt_view(self.ext),
            url: text::opt_view(self.url),
            formats: formats_view(self.formats@),
        }
    }
}

/// The members of a format that matter.
pub open spec fn format_of(v: Json) -> FormatView {
    FormatView { url: v.text("url"@), vcodec: v.text("vcodec"@), acodec: v.text("acodec"@) }
}

/// The members of a page that matter.
pub open spec fn page_of(v: Json) -> PageView {
    PageView {
        title: v.text("title"@),
        ext: v.text("ext"@),
        url: v.text("url"@),
        formats: match v.list("requested_formats"@) {
            Some(list) => Seq::new(list.len(), |i: int| format_of(list[i])),
            None => Seq::empty(),
        },
    }
}

/// Whether a codec is named at all.
pub open spec fn has_codec(codec: Option<Seq<char>>) -> bool {
    match codec {
        Some(c) => c != "none"@,
        None => false,
    }
}

/// The URL of the first format with a video codec that has one.
pub open spec fn video_of(list: Seq<FormatView>) -> Option<Seq<char>>
    decreases list.len(),
{
    if list.len() == 0 {
        None
    } else {
        match video_of(list.drop_last()) {
            Some(u) => Some(u),
            None => if has_codec(list.last().vcodec) {
                list.last().url
            } else {
                None
            },
        }
    }
}

/// The URL of the first format with an audio codec that has one.
pub open spec fn audio_of(list: Seq<FormatView>) -> Option<Seq<char>>
    decreases list.len(),
{
    if list.len() == 0 {
        None
    } else {
        match audio_of(list.drop_last()) {
            Some(u) => Some(u),
            None => if has_codec(list.last().acodec) {
                list.last().url
            } else {
                None
            },
        }
    }
}

/// What is made of a page: its title cut short, its extension, and its URLs.
pub open spec fn resolution(p: PageView) -> ResolvedView {
    let title = match p.title {
        Some(t) => t,
        None => "video"@,
    };
    ResolvedView {
        title: if title.len() > MAX_TITLE {
            title.take(MAX_TITLE as int)
        } else {
            title
        },
        ext: match p.ext {
            Some(e) => e,
            None => "mp4"@,
        },
        direct_url: p.url,
        video_url: video_of(p.formats),
        audio_url: audio_of(p.formats),
    }
}

fn names_codec(codec: &Option<String>) -> (r: bool)
    ensures
        r == has_codec(text::opt_view(*codec)),
{
    match codec {
        Some(c) => !same_text(c.as_str(), "none"),
        None => false,
    }
}

/// What is made of a page.
pub fn resolve_page(p: PageInfo) -> (r: ResolvedMedia)
    ensures
        r@ == resolution(p@),
{
    let raw = match p.title {
        Some(t) => chars_of(t.as_str()),
        None => chars_of("video"),
    };
    let n: usize = if raw.len() > MAX_TITLE {
        MAX_TITLE
    } else {
        raw.len()
    };
    let title = string_of(&raw.as_slice()[0..n]);
    assert(raw@.take(raw@.len() as int) =~= raw@);
    let ext = match p.ext {
        Some(e) => e,
        None => "mp4".to_string(),
    };
    let formats = p.formats;
    let ghost all = formats_view(formats@);
    let mut video: Option<String> = None;
    let mut audio: Option<String> = None;
    let mut i: usize = 0;
    while i < formats.len()
        invariant
            i <= formats@.len(),
            all == formats_view(formats@),
            text::opt_view(video) == video_of(all.take(i as int)),
            text::opt_view(audio) == audio_of(all.take(i as int)),
        decreases formats.len() - i,
    {
        assert(all.take(i + 1).drop_last() =~= all.take(i as int));
        assert(all.take(i + 1).last() == formats@[i as int]@);
        if video.is_none() && names_codec(&formats[i].vcodec) {
            video = copy_opt(&formats[i].url);
        }
        if audio.is_none() && names_codec(&formats[i].acodec) {
            audio = copy_opt(&formats[i].url);
        }
        i = i + 1;
    }
    assert(all.take(i as int) =~= all);
    ResolvedMedia { title, ext, direct_url: p.url, video_url: video, audio_url: audio }
}

fn owned(s: Option<&str>) -> (r: Option<String>)
    ensures
        text::opt_view(r) == text::str_view(s),
{
    match s {
        Some(t) => Some(t.to_string()),
        None => None,
    }
}

fn read_page(value: &serde_json::Value) -> (r: PageInfo)
    ensures
        r@ == page_of(json::json_of(*value)),
{
    let mut formats: Vec<FormatInfo> = Vec::new();
    let found = list_at(value, "requested_formats");
    let ghost wanted = page_of(json::json_of(*value)).formats;
    assert(formats_view(formats@) =~= Seq::empty());
    if let Some(list) = found {
        assert(json::json_of(*value).list("requested_formats"@) == json::items_view(found));
        let ghost items = json::items_view(found)->0;
        let mut i: usize = 0;
        while i < list.len()
            invariant
                i <= list@.len(),
                items == Seq::new(list@.len(), |j: int| json::json_of(list@[j])),
                formats@.len() == i,
                forall|j: int| 0 <= j < i ==> (#[trigger] formats@[j])@ == format_of(items[j]),
            decreases list.len() - i,
        {
            let item = &list[i];
            let format = FormatInfo {
                url: owned(text_at(item, "url")),
                vcodec: owned(text_at(item, "vcodec")),
                acodec: owned(text_at(item, "acodec")),
            };
            assert(format@ =~= format_of(items[i as int]));
            formats.push(format);
            i = i + 1;
        }
        assert(formats_view(formats@) =~= wanted);
    }
    PageInfo {
        title: owned(text_at(value, "title")),
        ext: owned(text_at(value, "ext")),
        url: owned(text_at(value, "url")),
        formats,
    }
}

/// Parse `--dump-single-json` output into [`ResolvedMedia`].
pub fn parse_resolved(value: &serde_json::Value) -> (r: ResolvedMedia)
    ensures
        r@ == resolution(page_of(json::json_of(*value))),
{
    resolve_page(read_page(value))
}

/// The arguments with which yt-dlp resolves a page.
pub fn resolve_args(url: &str, format_spec: &str) -> (r: Vec<String>)
    ensures
        text::views(r@) == seq![
            "--dump-single-json"@,
            "--no-playlist"@,
            "--no-warnings"@,
            "-f"@,
            format_spec@,
            url@,
        ],
{
    let args: Vec<String> = vec![
        "--dump-single-json".to_string(),
        "--no-playlist".to_string(),
        "--no-warnings".to_string(),
        "-f".to_string(),
        format_spec.to_string(),
        url.to_string(),
    ];
    assert(text::views(args@) =~= seq![
        "--dump-single-json"@,
        "--no-playlist"@,
        "--no-warnings"@,
        "-f"@,
        format_spec@,
        url@,
    ]);
    args
}

pub open spec fn resolved_view(r: Result<ResolvedMedia, CcdmError>) -> Result<
    ResolvedView,
    ErrorView,
> {
    match r {
        Ok(m) => Ok(m@),
        Err(e) => Err(e@),
    }
}

/// What the output of yt-dlp means once it has been read as JSON.
pub open spec fn resolved_output(parsed: Result<Json, Seq<char>>) -> Result<
    ResolvedView,
    ErrorView,
> {
    match parsed {
        Ok(v) => Ok(resolution(page_of(v))),
        Err(e) => Err(ErrorView::Other("yt-dlp returned bad JSON: "@ + e)),
    }
}

/// What the output of yt-dlp means once it has been read as JSON.
pub fn resolve_parsed(parsed: Result<serde_json::Value, String>) -> (r: Result<
    ResolvedMedia,
    CcdmError,
>)
    ensures
        resolved_view(r) == resolved_output(json::parsed_view(parsed)),
{
    match parsed {
        Ok(value) => Ok(parse_resolved(&value)),
        Err(e) => Err(CcdmError::Other(concat("yt-dlp returned bad JSON: ", e.as_str()))),
    }
}

/// What a run of yt-dlp means: the page that it wrote, or the last lines of its
/// complaints.
pub fn resolve(success: bool, stdout: &[u8], stderr: &str) -> (r: Result<ResolvedMedia, CcdmError>)
    ensures
        resolved_view(r) == (if success {
            resolved_output(json::json_parse_bytes(stdout@))
        } else {
            Err(ErrorView::Other("yt-dlp resolve failed: "@ + text::last_lines(stderr@, 3)))
        }),
{
    if !success {
        let mut text = chars_of("yt-dlp resolve failed: ");
        append(&mut text, tail_of(stderr, 3).as_slice());
        return Err(CcdmError::Other(string_of(text.as_slice())));
    }
    resolve_parsed(parse_json_bytes(stdout))
}

/// The error of a helper that could not be started.
pub fn start_failure(helper: &str, cause: &str) -> (r: CcdmError)
    ensures
        r@ == ErrorView::Other(
            helper@ + " failed to start ("@ + cause@ + "); is it installed?"@,
        ),
{
    let mut text = chars_of(helper);
    append(&mut text, chars_of(" failed to start (").as_slice());
    append(&mut text, chars_of(cause).as_slice());
    append(&mut text, chars_of("); is it installed?").as_slice());
    CcdmError::Other(string_of(text.as_slice()))
}

/// A host belongs to a site where it is the site or ends with a dot and the site:
/// a host that merely ends with the letters of the site does not.
pub proof fn only_subdomains_belong(prefix: Seq<char>, site: Seq<char>)
    ensures
        belongs_to(site, site),
        belongs_to(prefix + seq!['.'] + site, site),
        prefix.len() > 0 && prefix[prefix.len() - 1] != '.' ==> !belongs_to(prefix + site, site),
{
    reveal_strlit(".");
    let dotted = "."@ + site;
    assert(dotted =~= seq!['.'] + site);
    let sub = prefix + seq!['.'] + site;
    assert(sub.subrange(prefix.len() as int, sub.len() as int) =~= dotted);
    if prefix.len() > 0 && prefix[prefix.len() - 1] != '.' {
        let host = prefix + site;
        if dotted.is_suffix_of(host) {
            let tail = host.subrange(host.len() - dotted.len(), host.len() as int);
            assert(tail[0] == dotted[0]);
            assert(tail[0] == host[prefix.len() - 1]);
        }
    }
}

/// A URL is of a watch page exactly where its host, in lower case, belongs to one
/// of the nine sites; a text that is no URL or has no host is of none.
pub proof fn watch_pages_are_of_known_sites(u: UrlView, message: Seq<char>)
    ensures
        watch_page(Ok(u)) <==> (u.host matches Some(h) && ({
            let host = text::lower(h);
            ||| belongs_to(host, "youtube.com"@)
            ||| belongs_to(host, "youtu.be"@)
            ||| belongs_to(host, "vimeo.com"@)
            ||| belongs_to(host, "dailymotion.com"@)
            ||| belongs_to(host, "twitch.tv"@)
            ||| belongs_to(host, "facebook.com"@)
            ||| belongs_to(host, "instagram.com"@)
            ||| belongs_to(host, "tiktok.com"@)
            ||| belongs_to(host, "x.com"@)
        })),
        !watch_page(Err(message)),
{
    let v = video_hosts();
    assert(v.len() == 9);
    if let Some(h) = u.host {
        let host = text::lower(h);
        if belongs_to(host, "youtube.com"@) {
            assert(belongs_to(host, v[0]));
        }
        if belongs_to(host, "youtu.be"@) {
            assert(belongs_to(host, v[1]));
        }
        if belongs_to(host, "vimeo.com"@) {
            assert(belongs_to(host, v[2]));
        }
        if belongs_to(host, "dailymotion.com"@) {
            assert(belongs_to(host, v[3]));
        }
        if belongs_to(host, "twitch.tv"@) {
            assert(belongs_to(host, v[4]));
        }
        if belongs_to(host, "facebook.com"@) {
            assert(belongs_to(host, v[5]));
        }
        if belongs_to(host, "instagram.com"@) {
            assert(belongs_to(host, v[6]));
        }
        if belongs_to(host, "tiktok.com"@) {
            assert(belongs_to(host, v[7]));
        }
        if belongs_to(host, "x.com"@) {
            assert(belongs_to(host, v[8]));
        }
    }
}

/// The video of a page is that of the first format that names a video codec and
/// has a URL; there is none only where no format is such a one.
pub proof fn first_video_format_counts(list: Seq<FormatView>)
    ensures
        match video_of(list) {
            Some(u) => exists|i: int|
                {
                    &&& 0 <= i < list.len()
                    &&& (#[trigger] list[i]).url == Some(u)
                    &&& has_codec(list[i].vcodec)
                    &&& forall|j: int|
                        0 <= j < i ==> !has_codec((#[trigger] list[j]).vcodec) || list[j].url is None
                },
            None => forall|j: int|
                0 <= j < list.len() ==> !has_codec((#[trigger] list[j]).vcodec) || list[j].url
                    is None,
        },
    decreases list.len(),
{
    if list.len() > 0 {
        let init = list.drop_last();
        let n = list.len() - 1;
        first_video_format_counts(init);
        assert(forall|j: int| 0 <= j < n ==> init[j] == #[trigger] list[j]);
        match video_of(init) {
            Some(u) => {
                let i = choose|i: int|
                    {
                        &&& 0 <= i < init.len()
                        &&& (#[trigger] init[i]).url == Some(u)
                        &&& has_codec(init[i].vcodec)
                        &&& forall|j: int|
                            0 <= j < i ==> !has_codec((#[trigger] init[j]).vcodec) || init[j].url
                                is None
                    };
                assert(list[i].url == Some(u));
            },
            None => {
                assert(list[n].url == list[n].url);
            },
        }
    }
}

/// The audio of a page is that of the first format that names an audio codec and
/// has a URL; there is none only where no format is such a one.
pub proof fn first_audio_format_counts(list: Seq<FormatView>)
    ensures
        match audio_of(list) {
            Some(u) => exists|i: int|
                {
                    &&& 0 <= i < list.len()
                    &&& (#[trigger] list[i]).url == Some(u)
                    &&& has_codec(list[i].acodec)
                    &&& forall|j: int|
                        0 <= j < i ==> !has_codec((#[trigger] list[j]).acodec) || list[j].url is None
                },
            None => forall|j: int|
                0 <= j < list.len() ==> !has_codec((#[trigger] list[j]).acodec) || list[j].url
                    is None,
        },
    decreases list.len(),
{
    if list.len() > 0 {
        let init = list.drop_last();
        let n = list.len() - 1;
        first_audio_format_counts(init);
        assert(forall|j: int| 0 <= j < n ==> init[j] == #[trigger] list[j]);
        match audio_of(init) {
            Some(u) => {
                let i = choose|i: int|
                    {
                        &&& 0 <= i < init.len()
                        &&& (#[trigger] init[i]).url == Some(u)
                        &&& has_codec(init[i].acodec)
                        &&& forall|j: int|
                            0 <= j < i ==> !has_codec((#[trigger] init[j]).acodec) || init[j].url
                                is None
                    };
                assert(list[i].url == Some(u));
            },
            None => {
                assert(list[n].url == list[n].url);
            },
        }
    }
}

/// A codec is named unless it is missing or called `none`.
pub proof fn codecs_are_named(c: Seq<char>)
    ensures
        has_codec(Some(c)) <==> c != "none"@,
        !has_codec(None),
{
}

/// A page is resolved to what it says: its direct URL, the beginning of its title
/// up to 120 characters, and its extension; `video` and `mp4` stand for a title
/// and an extension that are missing.
pub proof fn page_is_resolved_as_described(v: Json)
    ensures
        ({
            let r = resolution(page_of(v));
            &&& r.direct_url == v.text("url"@)
            &&& v.text("title"@) matches Some(t) ==> r.title.len() <= 120 && r.title
                == t.take(r.title.len() as int) && (r.title.len() < 120 ==> r.title == t)
            &&& v.text("title"@) is None ==> r.title == "video"@
            &&& v.text("ext"@) matches Some(e) ==> r.ext == e
            &&& v.text("ext"@) is None ==> r.ext == "mp4"@
            &&& v.list("requested_formats"@) matches Some(list) ==> {
                let formats = Seq::new(
                    list.len(),
                    |i: int|
                        FormatView {
                            url: list[i].text("url"@),
                            vcodec: list[i].text("vcodec"@),
                            acodec: list[i].text("acodec"@),
                        },
                );
                r.video_url == video_of(formats) && r.audio_url == audio_of(formats)
            }
            &&& v.list("requested_formats"@) is None ==> r.video_url is None && r.audio_url is None
        }),
{
    reveal_strlit("video");
    if let Some(t) = v.text("title"@) {
        assert(t.take(t.len() as int) =~= t);
    }
    if let Some(list) = v.list("requested_formats"@) {
        let formats = Seq::new(
            list.len(),
            |i: int|
                FormatView {
                    url: list[i].text("url"@),
                    vcodec: list[i].text("vcodec"@),
                    acodec: list[i].text("acodec"@),
                },
        );
        assert(page_of(v).formats =~= formats);
    }
}

/// What is played is the direct URL, and only without one the video, and only
/// without that the audio; it is muxed exactly where both are there and no
/// direct URL is.
pub proof fn direct_url_is_played_first(r: ResolvedView)
    ensures
        r.direct_url is Some ==> r.playable() == r.direct_url && !r.split_streams(),
        r.direct_url is None && r.video_url is Some ==> r.playable() == r.video_url
            && r.split_streams() == (r.audio_url is Some),
        r.direct_url is None && r.video_url is None ==> r.playable() == r.audio_url
            && !r.split_streams(),
{
}

/// A configured yt-dlp is the only one that counts, and counts where it exists or
/// answers; without one the first name that answers does.
pub proof fn configured_ytdlp_counts_alone(configured: Option<Seq<char>>, probe: YtdlpProbe)
    ensures
        configured matches Some(p) ==> !text::blank(p) ==> ytdlp_choice(configured, probe) == (
        if probe.exists || probe.runs {
            Some(text::trim(p))
        } else {
            None
        }),
        configured is None || text::blank(configured->0) ==> ytdlp_choice(configured, probe) == (
        if probe.plain_runs {
            Some("yt-dlp"@)
        } else if probe.exe_runs {
            Some("yt-dlp.exe"@)
        } else {
            None
        }),
{
    if let Some(p) = configured {
        text::blank_is_trimmed_away(p);
    }
}

/// A quality that names a height limits the height to it, in a single file and in
/// merged streams; one that asks for audio gives audio, and one that is unknown
/// is passed on as a format where streams may be merged.
pub proof fn quality_limits_the_height(quality: Seq<char>)
    ensures
        ({
            let q = text::lower(quality);
            &&& q == "1080p"@ || q == "1080"@ ==> single_format(quality) == "b[height<=1080]/b"@
                && full_format(quality) == "bv*[height<=1080]+ba/b"@
            &&& q == "720p"@ || q == "720"@ ==> single_format(quality) == "b[height<=720]/b"@
                && full_format(quality) == "bv*[height<=720]+ba/b"@
            &&& q == "480p"@ || q == "480"@ ==> single_format(quality) == "b[height<=480]/b"@
                && full_format(quality) == "bv*[height<=480]+ba/b"@
            &&& q == "audio"@ || q == "bestaudio"@ || q == "mp3"@ ==> single_format(quality)
                == "ba"@ && full_format(quality) == "ba/b"@
            &&& q == "best"@ ==> single_format(quality) == "b"@ && full_format(quality)
                == "bv*+ba/b"@
            &&& height_of(q) is None && !wants_audio(q) && q != "best"@ ==> full_format(quality)
                == quality && single_format(quality) == "b"@
        }),
{
    reveal_strlit("1080p");
    reveal_strlit("1080");
    reveal_strlit("720p");
    reveal_strlit("720");
    reveal_strlit("480p");
    reveal_strlit("480");
    reveal_strlit("audio");
    reveal_strlit("bestaudio");
    reveal_strlit("mp3");
    reveal_strlit("best");
    let q = text::lower(quality);
    assert(q.len() > 0 && (q[0] == 'a' || q[0] == 'b' || q[0] == 'm') ==> height_of(q) is None);
    assert("1080p"@[0] == '1' && "1080"@[0] == '1');
    assert("720p"@[0] == '7' && "720"@[0] == '7');
    assert("480p"@[0] == '4' && "480"@[0] == '4');
    assert("best"@.len() == 4 && "bestaudio"@.len() == 9 && "audio"@.len() == 5 && "mp3"@.len() == 3);
    assert("audio"@[0] == 'a' && "best"@[0] == 'b' && "bestaudio"@[0] == 'b' && "mp3"@[0] == 'm');
}

} // verus!
