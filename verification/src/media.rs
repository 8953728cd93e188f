//! HLS (m3u8) and DASH (mpd) downloads: what a URL or a fetched text is,
//! which rendition is taken, and which URLs make up the file.

use vstd::prelude::*;

use crate::dash::{self, DashStream, StreamView};
use crate::error::{concat, CcdmError, ErrorView};
use crate::hls::{
    self, parse_master, parse_media, HlsMedia, HlsVariant, MediaView, SegmentView, VariantView,
};
use crate::paths::{self, extension_of, with_extension};
use crate::text::{
    self, chars_of, contains, copy_list, ends_with, lowered, same, same_text, starts_with,
    trimmed_start, until, CharClass,
};

verus! {

/// Streaming media flavor.
#[derive(Debug, Clone, Copy, PartialEq, Eq, Structural)]
pub enum MediaKind {
    Hls,
    Dash,
}

impl MediaKind {
    /// The name shown to a user.
    pub open spec fn name(self) -> Seq<char> {
        match self {
            MediaKind::Hls => "HLS"@,
            MediaKind::Dash => "DASH"@,
        }
    }

    /// The extension of a downloaded stream.
    pub open spec fn file_ext(self) -> Seq<char> {
        match self {
            MediaKind::Hls => "ts"@,
            MediaKind::Dash => "mp4"@,
        }
    }

    /// The name shown to a user.
    pub fn label(self) -> (r: &'static str)
        ensures
            r@ == self.name(),
    {
        match self {
            MediaKind::Hls => "HLS",
            MediaKind::Dash => "DASH",
        }
    }

    /// The extension of a downloaded stream.
    pub fn extension(self) -> (r: &'static str)
        ensures
            r@ == self.file_ext(),
    {
        match self {
            MediaKind::Hls => "ts",
            MediaKind::Dash => "mp4",
        }
    }
}

/// The flavor that the end of a URL's path names, in any case.
pub open spec fn kind_of_path(url: Seq<char>) -> Option<MediaKind> {
    let path = text::lower(text::before(url, CharClass::Either('?', '#')));
    if ".m3u8"@.is_suffix_of(path) || ".m3u"@.is_suffix_of(path) {
        Some(MediaKind::Hls)
    } else if ".mpd"@.is_suffix_of(path) {
        Some(MediaKind::Dash)
    } else {
        None
    }
}

/// The flavor that a MIME type names, in any case.
pub open spec fn kind_of_mime(mime: Seq<char>) -> Option<MediaKind> {
    if text::occurs(text::lower(mime), "mpegurl"@) {
        Some(MediaKind::Hls)
    } else if text::occurs(text::lower(mime), "dash+xml"@) {
        Some(MediaKind::Dash)
    } else {
        None
    }
}

/// The flavor that a URL hints at, and where it does not, its MIME type.
pub open spec fn hinted(url: Seq<char>, mime: Option<Seq<char>>) -> Option<MediaKind> {
    match (kind_of_path(url), mime) {
        (Some(kind), _) => Some(kind),
        (None, Some(m)) => kind_of_mime(m),
        (None, None) => None,
    }
}

/// Guess from URL extension and/or MIME type (no network involved).
pub fn detect_media(url: &str, content_type: Option<&str>) -> (r: Option<MediaKind>)
    ensures
        r == hinted(url@, text::str_view(content_type)),
{
    let all = chars_of(url);
    let path = lowered(until(all.as_slice(), CharClass::Either('?', '#')));
    if ends_with(path.as_slice(), ".m3u8") || ends_with(path.as_slice(), ".m3u") {
        return Some(MediaKind::Hls);
    }
    if ends_with(path.as_slice(), ".mpd") {
        return Some(MediaKind::Dash);
    }
    match content_type {
        None => None,
        Some(mime) => {
            let ct = lowered(chars_of(mime).as_slice());
            if contains(ct.as_slice(), "mpegurl") {
                Some(MediaKind::Hls)
            } else if contains(ct.as_slice(), "dash+xml") {
                Some(MediaKind::Dash)
            } else {
                None
            }
        },
    }
}

/// What a fetched text is.
pub open spec fn kind_of_text(text: Seq<char>) -> Option<MediaKind> {
    if "#EXTM3U"@.is_prefix_of(text::trim_start(text)) {
        Some(MediaKind::Hls)
    } else if text::occurs(text, "<MPD"@) || text::occurs(text, "<mpd"@) {
        Some(MediaKind::Dash)
    } else {
        None
    }
}

/// Classify already-fetched playlist text.
pub fn classify(text: &str) -> (r: Option<MediaKind>)
    ensures
        r == kind_of_text(text@),
{
    let all = chars_of(text);
    if starts_with(trimmed_start(all.as_slice()), "#EXTM3U") {
        return Some(MediaKind::Hls);
    }
    if contains(all.as_slice(), "<MPD") || contains(all.as_slice(), "<mpd") {
        return Some(MediaKind::Dash);
    }
    None
}

/// The flavor of the text fetched from `url`, or the error that it is none.
pub fn playlist_kind(url: &str, text: &str) -> (r: Result<MediaKind, CcdmError>)
    ensures
        (match r {
            Ok(kind) => Ok(kind),
            Err(e) => Err(e@),
        }) == (match kind_of_text(text@) {
            Some(kind) => Ok(kind),
            None => Err(ErrorView::Other("not a media playlist: "@ + url@)),
        }),
{
    match classify(text) {
        Some(kind) => Ok(kind),
        None => Err(CcdmError::Other(concat("not a media playlist: ", url))),
    }
}

/// The largest playlist that is read, in bytes.
pub const MAX_PLAYLIST_BYTES: u64 = 8_388_608;

/// Whether a playlist of which `len` bytes have come is still within `max`.
pub fn check_playlist_size(len: usize, max: u64) -> (r: Result<(), CcdmError>)
    ensures
        r is Ok <==> len <= max,
        r matches Err(e) ==> e@ == ErrorView::Other("playlist too large"@),
{
    if len as u64 > max {
        Err(CcdmError::Other("playlist too large".to_string()))
    } else {
        Ok(())
    }
}

/// Whether a destination bears the extension of a playlist.
pub open spec fn names_playlist(dest: Seq<char>) -> bool {
    match paths::extension(dest) {
        Some(ext) => text::lower(ext) == "m3u8"@ || text::lower(ext) == "m3u"@ || text::lower(ext) == "mpd"@,
        None => false,
    }
}

/// Where a stream is written: `dest`, with the extension of the stream where the
/// URL itself, or `dest`, ends in a playlist suffix.
pub open spec fn stream_dest(url: Seq<char>, dest: Seq<char>, kind: MediaKind) -> Seq<char> {
    if kind_of_path(url) is Some || names_playlist(dest) {
        paths::extended(dest, kind.file_ext())
    } else {
        dest
    }
}

/// Where the stream at `url` is written (extension fixed to `.ts`/`.mp4` when
/// the URL itself ends in a playlist suffix, or `dest` does).
pub fn media_dest(url: &str, dest: &str, kind: MediaKind) -> (r: String)
    ensures
        r@ == stream_dest(url@, dest@, kind),
{
    let playlist = detect_media(url, None).is_some() || match extension_of(dest) {
        Some(ext) => {
            let low = lowered(chars_of(ext.as_str()).as_slice());
            same(low.as_slice(), "m3u8") || same(low.as_slice(), "m3u") || same(
                low.as_slice(),
                "mpd",
            )
        },
        None => false,
    };
    if playlist {
        with_extension(dest, kind.extension())
    } else {
        dest.to_string()
    }
}

/// The last of the greatest keys in a list where `None` is no candidate.
pub open spec fn last_greatest(keys: Seq<Option<nat>>) -> Option<int>
    decreases keys.len(),
{
    if keys.len() == 0 {
        None
    } else {
        let best = last_greatest(keys.drop_last());
        match keys.last() {
            None => best,
            Some(k) => match best {
                Some(b) if keys[b]->0 > k => Some(b),
                _ => Some(keys.len() - 1),
            },
        }
    }
}

/// The choice among candidates: it is one of them, none of them has a greater
/// key, and among those with the same key it comes last; there is no choice
/// only where there is no candidate.
pub proof fn greatest_is_chosen(keys: Seq<Option<nat>>)
    ensures
        match last_greatest(keys) {
            Some(b) => {
                &&& 0 <= b < keys.len()
                &&& keys[b] is Some
                &&& forall|i: int|
                    0 <= i < keys.len() && (#[trigger] keys[i]) is Some ==> keys[i]->0 <= keys[b]->0
                &&& forall|i: int|
                    b < i < keys.len() && (#[trigger] keys[i]) is Some ==> keys[i]->0 < keys[b]->0
            },
            None => forall|i: int| 0 <= i < keys.len() ==> (#[trigger] keys[i]) is None,
        },
    decreases keys.len(),
{
    if keys.len() > 0 {
        greatest_is_chosen(keys.drop_last());
        assert(forall|i: int| 0 <= i < keys.len() - 1 ==> keys.drop_last()[i] == #[trigger] keys[i]);
    }
}

pub open spec fn keys_view(keys: Seq<Option<u64>>) -> Seq<Option<nat>> {
    Seq::new(
        keys.len(),
        |i: int|
            match keys[i] {
                Some(k) => Some(k as nat),
                None => None,
            },
    )
}

fn find_greatest(keys: &Vec<Option<u64>>) -> (r: Option<usize>)
    ensures
        (match r {
            Some(i) => Some(i as int),
            None => None,
        }) == last_greatest(keys_view(keys@)),
        r matches Some(i) ==> i < keys@.len(),
{
    let ghost all = keys_view(keys@);
    let mut best: Option<usize> = None;
    let mut i: usize = 0;
    while i < keys.len()
        invariant
            i <= keys.len(),
            all == keys_view(keys@),
            best matches Some(b) ==> b < i && keys@[b as int] is Some,
            (match best {
                Some(b) => Some(b as int),
                None => None,
            }) == last_greatest(all.take(i as int)),
        decreases keys.len() - i,
    {
        assert(all.take(i + 1).drop_last() =~= all.take(i as int));
        assert(all.take(i + 1).last() == all[i as int]);
        if let Some(k) = keys[i] {
            let greater = match best {
                Some(b) => match keys[b] {
                    Some(top) => top > k,
                    None => false,
                },
                None => false,
            };
            if !greater {
                best = Some(i);
            }
        }
        i = i + 1;
    }
    assert(all.take(i as int) =~= all);
    best
}

/// The bandwidths of the renditions of a master playlist.
pub open spec fn variant_keys(v: Seq<VariantView>) -> Seq<Option<nat>> {
    Seq::new(v.len(), |i: int| Some(v[i].bandwidth))
}

/// The bandwidths of the streams whose MIME type begins with `prefix`.
pub open spec fn stream_keys(v: Seq<StreamView>, prefix: Seq<char>) -> Seq<Option<nat>> {
    Seq::new(
        v.len(),
        |i: int|
            match v[i].mime {
                Some(m) => if prefix.is_prefix_of(m) {
                    Some(v[i].bandwidth)
                } else {
                    None
                },
                None => None,
            },
    )
}

/// The richest video stream, and where none is labeled so, the richest of
/// all.
pub open spec fn dash_choice(v: Seq<StreamView>) -> Option<int> {
    match last_greatest(stream_keys(v, "video/"@)) {
        Some(i) => Some(i),
        None => last_greatest(Seq::new(v.len(), |i: int| Some(v[i].bandwidth))),
    }
}

/// The richest stream that is labeled audio.
pub open spec fn audio_choice(v: Seq<StreamView>) -> Option<int> {
    last_greatest(stream_keys(v, "audio/"@))
}

fn keys_with_prefix(streams: &[DashStream], prefix: &str) -> (r: Vec<Option<u64>>)
    ensures
        keys_view(r@) == stream_keys(dash::streams_view(streams@), prefix@),
{
    let mut keys: Vec<Option<u64>> = Vec::new();
    let mut i: usize = 0;
    while i < streams.len()
        invariant
            i <= streams.len(),
            keys@.len() == i,
            forall|j: int|
                0 <= j < i ==> keys_view(keys@)[j] == #[trigger] stream_keys(
                    dash::streams_view(streams@),
                    prefix@,
                )[j],
        decreases streams.len() - i,
    {
        let key: Option<u64> = match &streams[i].mime {
            Some(m) => if starts_with(chars_of(m.as_str()).as_slice(), prefix) {
                Some(streams[i].bandwidth)
            } else {
                None
            },
            None => None,
        };
        let ghost had = keys@;
        keys.push(key);
        assert(forall|j: int| 0 <= j < i ==> keys_view(keys@)[j] == keys_view(had)[j]);
        i = i + 1;
    }
    keys
}

/// Prefer the richest video rendition, else the richest overall.
pub fn pick_dash(streams: &[DashStream]) -> (r: Option<&DashStream>)
    ensures
        (match r {
            Some(s) => Some(*s),
            None => None,
        }) == (match dash_choice(dash::streams_view(streams@)) {
            Some(i) => Some(streams@[i]),
            None => None,
        }),
        r is None <==> streams@.len() == 0,
{
    let ghost all = dash::streams_view(streams@);
    let ghost any = Seq::new(all.len(), |i: int| Some(all[i].bandwidth));
    proof {
        greatest_is_chosen(any);
        greatest_is_chosen(stream_keys(all, "video/"@));
        assert(all.len() > 0 ==> any[0] is Some);
    }
    if let Some(i) = find_greatest(&keys_with_prefix(streams, "video/")) {
        return Some(&streams[i]);
    }
    let mut keys: Vec<Option<u64>> = Vec::new();
    let mut i: usize = 0;
    while i < streams.len()
        invariant
            i <= streams.len(),
            keys@.len() == i,
            forall|j: int| 0 <= j < i ==> (#[trigger] keys@[j]) == Some(streams@[j].bandwidth),
        decreases streams.len() - i,
    {
        keys.push(Some(streams[i].bandwidth));
        i = i + 1;
    }
    assert(keys_view(keys@) =~= any);
    match find_greatest(&keys) {
        Some(i) => Some(&streams[i]),
        None => None,
    }
}

/// Richest audio-only rendition, if the manifest labels one.
pub fn pick_audio(streams: &[DashStream]) -> (r: Option<&DashStream>)
    ensures
        (match r {
            Some(s) => Some(*s),
            None => None,
        }) == (match audio_choice(dash::streams_view(streams@)) {
            Some(i) => Some(streams@[i]),
            None => None,
        }),
{
    match find_greatest(&keys_with_prefix(streams, "audio/")) {
        Some(i) => Some(&streams[i]),
        None => None,
    }
}

/// The rendition of a master playlist that is downloaded.
pub fn pick_variant(variants: &[HlsVariant]) -> (r: Option<&HlsVariant>)
    ensures
        (match r {
            Some(v) => Some(*v),
            None => None,
        }) == (match last_greatest(variant_keys(hls::variants_view(variants@))) {
            Some(i) => Some(variants@[i]),
            None => None,
        }),
{
    let mut keys: Vec<Option<u64>> = Vec::new();
    let mut i: usize = 0;
    while i < variants.len()
        invariant
            i <= variants.len(),
            keys@.len() == i,
            forall|j: int| 0 <= j < i ==> (#[trigger] keys@[j]) == Some(variants@[j].bandwidth),
        decreases variants.len() - i,
    {
        keys.push(Some(variants[i].bandwidth));
        i = i + 1;
    }
    assert(keys_view(keys@) =~= variant_keys(hls::variants_view(variants@)));
    match find_greatest(&keys) {
        Some(i) => Some(&variants[i]),
        None => None,
    }
}

/// What is done next for a stream.
#[derive(Debug)]
pub enum MediaStep {
    /// Fetch the media playlist at this URL and plan again.
    FetchVariant(String),
    /// Append these URLs to the destination, in order.
    Append(Vec<String>),
    /// Append the first URLs to the destination and the second ones to a file
    /// beside it, each in order, and mux the two files.
    MuxAudio(Vec<String>, Vec<String>),
}

/// The contents of a [`MediaStep`].
pub enum StepView {
    FetchVariant(Seq<char>),
    Append(Seq<Seq<char>>),
    MuxAudio(Seq<Seq<char>>, Seq<Seq<char>>),
}

impl View for MediaStep {
    type V = StepView;

    open spec fn view(&self) -> StepView {
        match *self {
            MediaStep::FetchVariant(u) => StepView::FetchVariant(u@),
            MediaStep::Append(v) => StepView::Append(text::views(v@)),
            MediaStep::MuxAudio(v, a) => StepView::MuxAudio(text::views(v@), text::views(a@)),
        }
    }
}

pub open spec fn step_view(r: Result<MediaStep, CcdmError>) -> Result<StepView, ErrorView> {
    match r {
        Ok(s) => Ok(s@),
        Err(e) => Err(e@),
    }
}

/// `first`, where there is one, and then `rest`.
pub open spec fn led_by(first: Option<Seq<char>>, rest: Seq<Seq<char>>) -> Seq<Seq<char>> {
    match first {
        Some(u) => seq![u] + rest,
        None => rest,
    }
}

fn with_lead(first: &Option<String>, rest: &Vec<String>) -> (r: Vec<String>)
    ensures
        text::views(r@) == led_by(text::opt_view(*first), text::views(rest@)),
{
    match first {
        None => copy_list(rest),
        Some(u) => {
            let mut out: Vec<String> = Vec::new();
            out.push(u.clone());
            let mut tail = copy_list(rest);
            let ghost more = tail@;
            out.append(&mut tail);
            assert(text::views(out@) =~= seq![u@] + text::views(more));
            out
        },
    }
}

/// The URLs of the entries of a media playlist.
pub open spec fn uris(v: Seq<SegmentView>) -> Seq<Seq<char>> {
    Seq::new(v.len(), |i: int| v[i].uri)
}

/// What a media playlist is downloaded as: its init fragment and then its
/// segments, unless it is encrypted or empty.
pub open spec fn media_step(m: Result<MediaView, ErrorView>) -> Result<StepView, ErrorView> {
    match m {
        Err(e) => Err(e),
        Ok(m) => if m.encrypted {
            Err(ErrorView::Unsupported("encrypted HLS (EXT-X-KEY) is not supported"@))
        } else if m.segments.len() == 0 {
            Err(ErrorView::Other("empty HLS playlist"@))
        } else {
            Ok(StepView::Append(led_by(m.map_uri, uris(m.segments))))
        },
    }
}

/// Nothing is fetched from an encrypted playlist: where its references resolve,
/// it is reported as unsupported, and else the first that does not is.
pub proof fn encrypted_playlist_is_refused(url: Seq<char>, text: Seq<char>)
    requires
        hls::media_scan(text).encrypted,
    ensures
        media_step(hls::media_of(url, text)) is Err,
        hls::media_items(url, hls::media_scan(text).items) is Ok ==> media_step(
            hls::media_of(url, text),
        )->Err_0 is Unsupported,
{
}

/// What the HLS text at `url` is downloaded as: a master playlist leads to
/// its richest rendition, a media playlist is taken as it is.
pub open spec fn hls_first(url: Seq<char>, text: Seq<char>) -> Result<StepView, ErrorView> {
    match hls::master_of(url, text) {
        Err(e) => Err(e),
        Ok(variants) => match last_greatest(variant_keys(variants)) {
            Some(i) => Ok(StepView::FetchVariant(variants[i].uri)),
            None => media_step(hls::media_of(url, text)),
        },
    }
}

/// What a media playlist is downloaded as.
pub fn plan_media(m: HlsMedia) -> (r: Result<MediaStep, CcdmError>)
    ensures
        step_view(r) == media_step(Ok(m@)),
{
    if m.encrypted {
        return Err(
            CcdmError::Unsupported("encrypted HLS (EXT-X-KEY) is not supported".to_string()),
        );
    }
    if m.segments.len() == 0 {
        return Err(CcdmError::Other("empty HLS playlist".to_string()));
    }
    let mut list: Vec<String> = Vec::new();
    let mut i: usize = 0;
    while i < m.segments.len()
        invariant
            i <= m.segments.len(),
            list@.len() == i,
            forall|j: int| 0 <= j < i ==> (#[trigger] list@[j])@ == m.segments@[j].uri@,
        decreases m.segments.len() - i,
    {
        list.push(m.segments[i].uri.clone());
        i = i + 1;
    }
    assert(text::views(list@) =~= uris(hls::segments_view(m.segments@)));
    Ok(MediaStep::Append(with_lead(&m.map_uri, &list)))
}

/// What the media playlist at `url` is downloaded as.
pub fn hls_media_step(url: &str, text: &str) -> (r: Result<MediaStep, CcdmError>)
    ensures
        step_view(r) == media_step(hls::media_of(url@, text@)),
{
    match parse_media(url, text) {
        Ok(m) => plan_media(m),
        Err(e) => Err(e),
    }
}

/// What the HLS text at `url` is downloaded as.
pub fn hls_step(url: &str, text: &str) -> (r: Result<MediaStep, CcdmError>)
    ensures
        step_view(r) == hls_first(url@, text@),
{
    let variants = match parse_master(url, text) {
        Ok(v) => v,
        Err(e) => {
            return Err(e);
        },
    };
    proof {
        greatest_is_chosen(variant_keys(hls::variants_view(variants@)));
    }
    match pick_variant(variants.as_slice()) {
        Some(best) => Ok(MediaStep::FetchVariant(best.uri.clone())),
        None => hls_media_step(url, text),
    }
}

/// The audio stream that goes with the chosen one, if there is one.
pub open spec fn extra_audio(v: Seq<StreamView>) -> Option<StreamView> {
    match (audio_choice(v), dash_choice(v)) {
        (Some(a), Some(b)) => if v[a].id != v[b].id && v[a].segments.len() > 0 {
            Some(v[a])
        } else {
            None
        },
        _ => None,
    }
}

/// What the streams of a manifest are downloaded as: the chosen stream, and
/// where another stream holds the audio and it can be muxed, that one with it.
pub open spec fn dash_first(v: Seq<StreamView>, can_mux: bool) -> Result<StepView, ErrorView> {
    match dash_choice(v) {
        None => Err(ErrorView::Other("no usable DASH representations"@)),
        Some(b) => if v[b].segments.len() == 0 {
            Err(ErrorView::Other("empty DASH stream"@))
        } else {
            match extra_audio(v) {
                Some(a) if can_mux => Ok(
                    StepView::MuxAudio(
                        led_by(v[b].init, v[b].segments),
                        led_by(a.init, a.segments),
                    ),
                ),
                _ => Ok(StepView::Append(led_by(v[b].init, v[b].segments))),
            }
        },
    }
}

/// Whether a stream is labeled with a MIME type that begins with `prefix`.
pub open spec fn labeled(s: StreamView, prefix: Seq<char>) -> bool {
    match s.mime {
        Some(m) => m.len() >= prefix.len() && forall|k: int|
            0 <= k < prefix.len() ==> #[trigger] m[k] == prefix[k],
        None => false,
    }
}

/// Whether the stream at `b` is the richest of those labeled with `prefix`, and
/// the last one where several are equally rich.
pub open spec fn richest_labeled(v: Seq<StreamView>, prefix: Seq<char>, b: int) -> bool {
    &&& 0 <= b < v.len()
    &&& labeled(v[b], prefix)
    &&& forall|i: int|
        0 <= i < v.len() && labeled(#[trigger] v[i], prefix) ==> v[i].bandwidth <= v[b].bandwidth
    &&& forall|i: int|
        b < i < v.len() && labeled(#[trigger] v[i], prefix) ==> v[i].bandwidth < v[b].bandwidth
}

/// Whether the stream at `b` is the richest of all, and the last one where
/// several are equally rich.
pub open spec fn richest(v: Seq<StreamView>, b: int) -> bool {
    &&& 0 <= b < v.len()
    &&& forall|i: int| 0 <= i < v.len() ==> (#[trigger] v[i]).bandwidth <= v[b].bandwidth
    &&& forall|i: int| b < i < v.len() ==> (#[trigger] v[i]).bandwidth < v[b].bandwidth
}

/// Whether `list` is all of a file: its init fragment first, where it has one,
/// and then its segments, whole and in order.
pub open spec fn is_all_of(
    list: Seq<Seq<char>>,
    init: Option<Seq<char>>,
    segments: Seq<Seq<char>>,
) -> bool {
    match init {
        Some(first) => {
            &&& list.len() == segments.len() + 1
            &&& list[0] == first
            &&& forall|i: int| 0 <= i < segments.len() ==> list[i + 1] == #[trigger] segments[i]
        },
        None => {
            &&& list.len() == segments.len()
            &&& forall|i: int| 0 <= i < segments.len() ==> list[i] == #[trigger] segments[i]
        },
    }
}

proof fn lemma_labeled(v: Seq<StreamView>, prefix: Seq<char>)
    ensures
        forall|i: int|
            0 <= i < v.len() ==> (#[trigger] stream_keys(v, prefix)[i] is Some <==> labeled(
                v[i],
                prefix,
            )),
        forall|i: int|
            0 <= i < v.len() && labeled(v[i], prefix) ==> #[trigger] stream_keys(v, prefix)[i]
                == Some(v[i].bandwidth),
{
    assert forall|i: int| 0 <= i < v.len() implies (#[trigger] stream_keys(v, prefix)[i] is Some
        <==> labeled(v[i], prefix)) by {
        if let Some(m) = v[i].mime {
            if labeled(v[i], prefix) {
                assert(m.subrange(0, prefix.len() as int) =~= prefix);
            }
            if prefix.is_prefix_of(m) {
                assert forall|k: int| 0 <= k < prefix.len() implies #[trigger] m[k] == prefix[k] by {
                    assert(m.subrange(0, prefix.len() as int)[k] == prefix[k]);
                }
            }
        }
    }
}

proof fn lemma_richest_labeled(v: Seq<StreamView>, prefix: Seq<char>)
    ensures
        match last_greatest(stream_keys(v, prefix)) {
            Some(b) => richest_labeled(v, prefix, b),
            None => forall|i: int| 0 <= i < v.len() ==> !labeled(#[trigger] v[i], prefix),
        },
{
    let keys = stream_keys(v, prefix);
    greatest_is_chosen(keys);
    lemma_labeled(v, prefix);
    match last_greatest(keys) {
        Some(b) => {
            assert(keys[b] == Some(v[b].bandwidth));
            assert forall|i: int| 0 <= i < v.len() && labeled(#[trigger] v[i], prefix) implies v[i].bandwidth
                <= v[b].bandwidth by {
                assert(keys[i] == Some(v[i].bandwidth));
            }
            assert forall|i: int| b < i < v.len() && labeled(#[trigger] v[i], prefix) implies v[i].bandwidth
                < v[b].bandwidth by {
                assert(keys[i] == Some(v[i].bandwidth));
            }
        },
        None => {
            assert forall|i: int| 0 <= i < v.len() implies !labeled(#[trigger] v[i], prefix) by {
                assert(keys[i] is None);
            }
        },
    }
}

/// The stream that is chosen is the richest of those labeled video; where none
/// is labeled so, the richest of all; none only where there is no stream.
pub proof fn richest_video_is_chosen(v: Seq<StreamView>)
    ensures
        match dash_choice(v) {
            Some(b) => {
                ||| richest_labeled(v, "video/"@, b)
                ||| richest(v, b) && forall|i: int|
                    0 <= i < v.len() ==> !labeled(#[trigger] v[i], "video/"@)
            },
            None => v.len() == 0,
        },
{
    lemma_richest_labeled(v, "video/"@);
    let all = Seq::new(v.len(), |i: int| Some(v[i].bandwidth));
    greatest_is_chosen(all);
    if last_greatest(stream_keys(v, "video/"@)) is None {
        match last_greatest(all) {
            Some(b) => {
                assert forall|i: int| 0 <= i < v.len() implies (#[trigger] v[i]).bandwidth
                    <= v[b].bandwidth by {
                    assert(all[i] == Some(v[i].bandwidth));
                }
                assert forall|i: int| b < i < v.len() implies (#[trigger] v[i]).bandwidth
                    < v[b].bandwidth by {
                    assert(all[i] == Some(v[i].bandwidth));
                }
            },
            None => {
                if v.len() > 0 {
                    assert(all[0] is Some);
                }
            },
        }
    }
}

/// The audio that is chosen is the richest of the streams labeled audio; none
/// only where no stream is labeled so.
pub proof fn richest_audio_is_chosen(v: Seq<StreamView>)
    ensures
        match audio_choice(v) {
            Some(a) => richest_labeled(v, "audio/"@, a),
            None => forall|i: int| 0 <= i < v.len() ==> !labeled(#[trigger] v[i], "audio/"@),
        },
{
    lemma_richest_labeled(v, "audio/"@);
}

/// The rendition of a master playlist that is chosen has the greatest bandwidth
/// of all, and is the last one where several have it; none only where there is
/// no rendition.
pub proof fn richest_rendition_is_chosen(v: Seq<VariantView>)
    ensures
        match last_greatest(variant_keys(v)) {
            Some(b) => {
                &&& 0 <= b < v.len()
                &&& forall|i: int| 0 <= i < v.len() ==> (#[trigger] v[i]).bandwidth <= v[b].bandwidth
                &&& forall|i: int| b < i < v.len() ==> (#[trigger] v[i]).bandwidth < v[b].bandwidth
            },
            None => v.len() == 0,
        },
{
    let keys = variant_keys(v);
    greatest_is_chosen(keys);
    match last_greatest(keys) {
        Some(b) => {
            assert forall|i: int| 0 <= i < v.len() implies (#[trigger] v[i]).bandwidth
                <= v[b].bandwidth by {
                assert(keys[i] == Some(v[i].bandwidth));
            }
            assert forall|i: int| b < i < v.len() implies (#[trigger] v[i]).bandwidth
                < v[b].bandwidth by {
                assert(keys[i] == Some(v[i].bandwidth));
            }
        },
        None => {
            if v.len() > 0 {
                assert(keys[0] is Some);
            }
        },
    }
}

/// Whether or not audio is muxed to it, all of the chosen stream is fetched, in
/// order: its init fragment, where it has one, and every segment. A stream
/// without segments is an error.
pub proof fn chosen_stream_is_fetched(v: Seq<StreamView>, can_mux: bool)
    ensures
        match dash_first(v, can_mux) {
            Ok(StepView::Append(list)) => dash_choice(v) matches Some(b) && is_all_of(
                list,
                v[b].init,
                v[b].segments,
            ),
            Ok(StepView::MuxAudio(list, _)) => dash_choice(v) matches Some(b) && is_all_of(
                list,
                v[b].init,
                v[b].segments,
            ),
            Ok(StepView::FetchVariant(_)) => false,
            Err(_) => dash_choice(v) matches Some(b) ==> v[b].segments.len() == 0,
        },
        dash_first(v, can_mux) matches Ok(StepView::Append(list)) ==> dash_choice(v) matches Some(b)
            && list == led_by(v[b].init, v[b].segments),
        dash_first(v, can_mux) matches Ok(StepView::MuxAudio(list, _)) ==> dash_choice(
            v,
        ) matches Some(b) && list == led_by(v[b].init, v[b].segments),
{
}

/// Whatever is fetched of a manifest, it is the richest of the streams labeled
/// video (of all, where none is) that is fetched, from its init fragment to
/// its last segment.
pub proof fn richest_video_is_fetched(v: Seq<StreamView>, can_mux: bool)
    ensures
        dash_first(v, can_mux) matches Ok(step) ==> exists|b: int|
            {
                &&& richest_labeled(v, "video/"@, b) || richest(v, b) && forall|i: int|
                    0 <= i < v.len() ==> !labeled(#[trigger] v[i], "video/"@)
                &&& (#[trigger] v[b]).segments.len() > 0
                &&& match step {
                    StepView::Append(list) => is_all_of(list, v[b].init, v[b].segments),
                    StepView::MuxAudio(list, _) => is_all_of(list, v[b].init, v[b].segments),
                    StepView::FetchVariant(_) => false,
                }
            },
{
    richest_video_is_chosen(v);
    if dash_first(v, can_mux) is Ok {
        let b = dash_choice(v)->0;
        assert(v[b].segments.len() > 0);
    }
}

/// Audio that is muxed is whole too: it is the richest of the streams labeled
/// audio, another one than the stream it is muxed to, and its file begins with
/// its init fragment, where it has one, and goes on with every segment in
/// order.
pub proof fn muxed_audio_is_whole(v: Seq<StreamView>, can_mux: bool)
    ensures
        dash_first(v, can_mux) matches Ok(StepView::MuxAudio(_, list)) ==> exists|a: int|
            {
                &&& #[trigger] richest_labeled(v, "audio/"@, a)
                &&& v[a].segments.len() > 0
                &&& dash_choice(v) matches Some(b) && v[a].id != v[b].id
                &&& is_all_of(list, v[a].init, v[a].segments)
            },
{
    richest_audio_is_chosen(v);
    if dash_first(v, can_mux) matches Ok(StepView::MuxAudio(_, list)) {
        assert(richest_labeled(v, "audio/"@, audio_choice(v)->0));
    }
}

/// Audio is muxed whenever it can be and there is some: where muxing works and
/// the richest of the streams labeled audio is another one than the chosen
/// stream and has segments.
pub proof fn audio_is_muxed_where_it_can_be(v: Seq<StreamView>, can_mux: bool, a: int, b: int)
    requires
        richest_labeled(v, "audio/"@, a),
        dash_choice(v) == Some(b),
        v[b].segments.len() > 0,
    ensures
        dash_first(v, can_mux) matches Ok(StepView::MuxAudio(_, _)) <==> can_mux && v[a].id
            != v[b].id && v[a].segments.len() > 0,
{
    richest_audio_is_chosen(v);
    let c = audio_choice(v)->0;
    assert(labeled(v[c], "audio/"@) && labeled(v[a], "audio/"@));
    assert(c == a);
}

/// Without a stream labeled audio, or without the means to mux, the chosen
/// stream is all that is fetched.
pub proof fn video_alone_is_appended(v: Seq<StreamView>, can_mux: bool)
    requires
        !can_mux || forall|i: int| 0 <= i < v.len() ==> !labeled(#[trigger] v[i], "audio/"@),
    ensures
        match dash_first(v, can_mux) {
            Ok(step) => step is Append,
            Err(_) => true,
        },
{
    richest_audio_is_chosen(v);
    if audio_choice(v) is Some {
        assert(labeled(v[audio_choice(v)->0], "audio/"@));
    }
}

/// A media playlist is fetched from its init fragment to its last segment, each
/// URL whole and in order; it is an error exactly where it is encrypted or
/// without segments.
pub proof fn playlist_is_fetched_whole(m: MediaView)
    ensures
        match media_step(Ok(m)) {
            Ok(StepView::Append(list)) => {
                &&& !m.encrypted
                &&& m.segments.len() > 0
                &&& is_all_of(
                    list,
                    m.map_uri,
                    Seq::new(m.segments.len(), |i: int| m.segments[i].uri),
                )
            },
            Ok(_) => false,
            Err(e) => if m.encrypted {
                e is Unsupported
            } else {
                m.segments.len() == 0 && e is Other
            },
        },
{
}

/// What is done with an HLS text: where it has renditions, the playlist of the
/// richest one is fetched, and else its own segments are.
pub proof fn richest_rendition_is_fetched(url: Seq<char>, text: Seq<char>, v: Seq<VariantView>)
    requires
        hls::master_of(url, text) == Ok::<Seq<VariantView>, ErrorView>(v),
    ensures
        v.len() > 0 ==> exists|b: int|
            {
                &&& 0 <= b < v.len()
                &&& hls_first(url, text) == Ok::<StepView, ErrorView>(
                    StepView::FetchVariant((#[trigger] v[b]).uri),
                )
                &&& forall|i: int| 0 <= i < v.len() ==> (#[trigger] v[i]).bandwidth <= v[b].bandwidth
                &&& forall|i: int| b < i < v.len() ==> (#[trigger] v[i]).bandwidth < v[b].bandwidth
            },
        v.len() == 0 ==> hls_first(url, text) == media_step(hls::media_of(url, text)),
{
    richest_rendition_is_chosen(v);
    if v.len() > 0 {
        let b = last_greatest(variant_keys(v))->0;
        assert(hls_first(url, text) == Ok::<StepView, ErrorView>(StepView::FetchVariant(v[b].uri)));
    } else {
        assert(last_greatest(variant_keys(v)) is None);
    }
}

/// What the streams of a manifest are downloaded as; `can_mux` says whether
/// ffmpeg was found.
pub fn dash_step(streams: &Vec<DashStream>, can_mux: bool) -> (r: Result<MediaStep, CcdmError>)
    ensures
        step_view(r) == dash_first(dash::streams_view(streams@), can_mux),
{
    let ghost all = dash::streams_view(streams@);
    proof {
        greatest_is_chosen(stream_keys(all, "audio/"@));
        greatest_is_chosen(stream_keys(all, "video/"@));
        greatest_is_chosen(Seq::new(all.len(), |i: int| Some(all[i].bandwidth)));
    }
    let best = match pick_dash(streams.as_slice()) {
        Some(s) => s,
        None => {
            return Err(CcdmError::Other("no usable DASH representations".to_string()));
        },
    };
    assert(all[dash_choice(all)->0] == best@);
    if best.segments.len() == 0 {
        return Err(CcdmError::Other("empty DASH stream".to_string()));
    }
    if can_mux {
        if let Some(a) = pick_audio(streams.as_slice()) {
            assert(all[audio_choice(all)->0] == a@);
            if !same_text(a.id.as_str(), best.id.as_str()) && a.segments.len() > 0 {
                return Ok(
                    MediaStep::MuxAudio(
                        with_lead(&best.init, &best.segments),
                        with_lead(&a.init, &a.segments),
                    ),
                );
            }
        }
    }
    Ok(MediaStep::Append(with_lead(&best.init, &best.segments)))
}

/// A URL hints at a playlist by the suffix of its path, in any case and whatever
/// its query or its fragment is; without such a suffix its MIME type does.
pub proof fn suffix_names_the_flavor(path: Seq<char>, mark: char, rest: Seq<char>)
    requires
        text::is_ascii(path),
        text::free_of(path, CharClass::Either('?', '#')),
        mark == '?' || mark == '#',
    ensures
        kind_of_path(path + seq![mark] + rest) == kind_of_path(path),
        kind_of_path(path) == Some(MediaKind::Hls) <==> ends_in(path, ".m3u8"@) || ends_in(
            path,
            ".m3u"@,
        ),
        kind_of_path(path) == Some(MediaKind::Dash) <==> ends_in(path, ".mpd"@),
        forall|mime: Option<Seq<char>>|
            kind_of_path(path) is Some ==> #[trigger] hinted(path, mime) == kind_of_path(path),
        forall|mime: Seq<char>|
            kind_of_path(path) is None ==> #[trigger] hinted(path, Some(mime)) == kind_of_mime(
                mime,
            ),
{
    text::cut_at_the_first(path, mark, rest, CharClass::Either('?', '#'));
    let low = text::lower(path);
    lemma_ends_in(path, ".m3u8"@);
    lemma_ends_in(path, ".m3u"@);
    lemma_ends_in(path, ".mpd"@);
    reveal_strlit(".m3u8");
    reveal_strlit(".m3u");
    reveal_strlit(".mpd");
    if ".mpd"@.is_suffix_of(low) {
        let tail = low.subrange(low.len() - 4, low.len() as int);
        assert(tail[3] == 'd');
        assert(low[low.len() - 1] == 'd');
        if ".m3u8"@.is_suffix_of(low) {
            assert(low.subrange(low.len() - 5, low.len() as int)[4] == '8');
        }
        if ".m3u"@.is_suffix_of(low) {
            assert(low.subrange(low.len() - 4, low.len() as int)[3] == 'u');
        }
    }
}

/// Whether `s` ends with `suffix` in lower case, the ASCII letters of `s` being
/// in any case.
pub open spec fn ends_in(s: Seq<char>, suffix: Seq<char>) -> bool {
    s.len() >= suffix.len() && forall|k: int|
        0 <= k < suffix.len() ==> {
            let c = s[s.len() - suffix.len() + k];
            #[trigger] suffix[k] == (if 'A' <= c <= 'Z' {
                (c as int + 32) as char
            } else {
                c
            })
        }
}

proof fn lemma_ends_in(s: Seq<char>, suffix: Seq<char>)
    requires
        text::is_ascii(s),
    ensures
        suffix.is_suffix_of(text::lower(s)) <==> ends_in(s, suffix),
{
    let low = text::lower(s);
    let from = low.len() - suffix.len();
    if suffix.is_suffix_of(low) {
        let tail = low.subrange(from, low.len() as int);
        assert forall|k: int| 0 <= k < suffix.len() implies ({
            let c = s[s.len() - suffix.len() + k];
            #[trigger] suffix[k] == (if 'A' <= c <= 'Z' {
                (c as int + 32) as char
            } else {
                c
            })
        }) by {
            assert(tail[k] == suffix[k]);
            assert(low[from + k] == suffix[k]);
        }
    }
    if ends_in(s, suffix) {
        let tail = low.subrange(from, low.len() as int);
        assert forall|k: int| 0 <= k < suffix.len() implies tail[k] == suffix[k] by {
            assert(suffix[k] == suffix[k]);
            assert(tail[k] == low[from + k]);
        }
        assert(tail =~= suffix);
    }
}

/// A MIME type names a flavor by what stands somewhere in it, in any case.
pub proof fn mime_names_the_flavor(mime: Seq<char>)
    requires
        text::is_ascii(mime),
    ensures
        kind_of_mime(mime) == Some(MediaKind::Hls) <==> exists|i: int|
            text::stands_at(text::ascii_lower(mime), "mpegurl"@, i),
        kind_of_mime(mime) is None ==> forall|i: int|
            !#[trigger] text::stands_at(text::ascii_lower(mime), "dash+xml"@, i),
        (exists|i: int| text::stands_at(text::ascii_lower(mime), "dash+xml"@, i)) ==> kind_of_mime(
            mime,
        ) is Some,
{
    text::what_stands_somewhere_occurs(text::lower(mime), "mpegurl"@);
    text::what_stands_somewhere_occurs(text::lower(mime), "dash+xml"@);
}

/// A text that begins with the HLS mark, behind white space at most, is HLS; any
/// other is DASH where the tag of a manifest stands in it, and else neither.
pub proof fn mark_names_the_flavor(space: Seq<char>, rest: Seq<char>, text: Seq<char>)
    requires
        text::blank(space),
    ensures
        kind_of_text(space + "#EXTM3U"@ + rest) == Some(MediaKind::Hls),
        kind_of_text(text) == Some(MediaKind::Hls) ==> exists|i: int|
            0 <= i && #[trigger] text::stands_at(text, "#EXTM3U"@, i) && text::blank(text.take(i)),
        kind_of_text(text) is None ==> forall|i: int|
            !#[trigger] text::stands_at(text, "<MPD"@, i),
        kind_of_text(text) is None ==> forall|i: int|
            !#[trigger] text::stands_at(text, "<mpd"@, i),
        kind_of_text(text) == Some(MediaKind::Dash) ==> (exists|i: int|
            text::stands_at(text, "<MPD"@, i)) || exists|i: int| text::stands_at(text, "<mpd"@, i),
{
    reveal_strlit("#EXTM3U");
    let core = "#EXTM3U"@ + rest;
    assert(space + "#EXTM3U"@ + rest =~= space + core);
    assert(core[0] == '#');
    text::lemma_start(space, core);
    assert(core.subrange(0, 7) =~= "#EXTM3U"@);
    text::what_stands_somewhere_occurs(text, "<MPD"@);
    text::what_stands_somewhere_occurs(text, "<mpd"@);
    if "#EXTM3U"@.is_prefix_of(text::trim_start(text)) {
        let i = text::lemma_start_cut(text);
        let t = text::trim_start(text);
        assert forall|k: int| 0 <= k < "#EXTM3U"@.len() implies text[i + k]
            == #[trigger] "#EXTM3U"@[k] by {
            assert(t.subrange(0, 7)[k] == "#EXTM3U"@[k]);
        }
        assert(text::stands_at(text, "#EXTM3U"@, i));
    }
}

/// A stream keeps its destination unless its URL or its destination names a
/// playlist; then only the extension changes, to that of the flavor.
pub proof fn only_playlist_suffixes_are_replaced(url: Seq<char>, dest: Seq<char>, kind: MediaKind)
    ensures
        kind_of_path(url) is None && !names_playlist(dest) ==> stream_dest(url, dest, kind) == dest,
        paths::has_name(paths::bare(dest)) && (kind_of_path(url) is Some || names_playlist(dest))
            ==> {
            &&& paths::extension(stream_dest(url, dest, kind)) == Some(
                match kind {
                    MediaKind::Hls => "ts"@,
                    MediaKind::Dash => "mp4"@,
                },
            )
            &&& paths::stem_text(stream_dest(url, dest, kind)) == paths::stem_text(dest)
        },
{
    reveal_strlit("ts");
    reveal_strlit("mp4");
    if paths::has_name(paths::bare(dest)) {
        paths::new_extension_keeps_the_rest(dest, kind.file_ext());
    }
}

/// What is downloaded of the streams of a manifest is whole: the richest of the
/// streams labeled video (of all, where none is), and where audio is muxed to it
/// the richest of those labeled audio, each from its init fragment to its last
/// segment.
pub proof fn dash_download_is_whole(
    streams: &Vec<DashStream>,
    can_mux: bool,
    r: Result<MediaStep, CcdmError>,
)
    requires
        call_ensures(dash_step, (streams, can_mux), r),
    ensures
        ({
            let v = Seq::new(streams@.len(), |i: int| streams@[i]@);
            match r {
                Ok(MediaStep::Append(list)) => exists|b: int|
                    {
                        &&& richest_labeled(v, "video/"@, b) || richest(v, b) && forall|i: int|
                            0 <= i < v.len() ==> !labeled(#[trigger] v[i], "video/"@)
                        &&& is_all_of(text::views(list@), (#[trigger] v[b]).init, v[b].segments)
                    },
                Ok(MediaStep::MuxAudio(list, audio)) => can_mux && exists|b: int, a: int|
                    {
                        &&& richest_labeled(v, "video/"@, b) || richest(v, b) && forall|i: int|
                            0 <= i < v.len() ==> !labeled(#[trigger] v[i], "video/"@)
                        &&& is_all_of(text::views(list@), (#[trigger] v[b]).init, v[b].segments)
                        &&& richest_labeled(v, "audio/"@, a)
                        &&& is_all_of(text::views(audio@), (#[trigger] v[a]).init, v[a].segments)
                        &&& v[a].id != v[b].id
                    },
                Ok(MediaStep::FetchVariant(_)) => false,
                Err(_) => dash_choice(v) matches Some(b) ==> v[b].segments.len() == 0,
            }
        }),
{
    let v = Seq::new(streams@.len(), |i: int| streams@[i]@);
    assert(v =~= dash::streams_view(streams@));
    chosen_stream_is_fetched(v, can_mux);
    richest_video_is_chosen(v);
    richest_audio_is_chosen(v);
    muxed_audio_is_whole(v, can_mux);
    match r {
        Ok(MediaStep::Append(list)) => {
            let b = dash_choice(v)->0;
            assert(is_all_of(text::views(list@), v[b].init, v[b].segments));
        },
        Ok(MediaStep::MuxAudio(list, audio)) => {
            let b = dash_choice(v)->0;
            let a = audio_choice(v)->0;
            assert(is_all_of(text::views(list@), v[b].init, v[b].segments));
            assert(is_all_of(text::views(audio@), v[a].init, v[a].segments));
        },
        _ => {},
    }
}

/// A destination names a playlist by its extension, in any case.
pub proof fn playlists_are_named_by_extension(dest: Seq<char>, ext: Seq<char>)
    requires
        paths::extension(dest) == Some(ext),
        text::is_ascii(ext),
    ensures
        names_playlist(dest) <==> text::ascii_lower(ext) == "m3u8"@ || text::ascii_lower(ext)
            == "m3u"@ || text::ascii_lower(ext) == "mpd"@,
{
}

} // verus!
