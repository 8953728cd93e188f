//! HLS playlists (m3u8): the renditions of a master playlist and the
//! segments of a media playlist.

use vstd::prelude::*;

use crate::error::{CcdmError, ErrorView};
use crate::markup::{self, attr, parse_attrs};
use crate::text::{
    self, chars_of, copy_opt, lines_of, parse_number, position, same_text, string_of, trimmed,
    until, without_prefix, CharClass,
};
use crate::urls::{self, resolve_url};

verus! {

/// One rendition from an HLS master playlist.
#[derive(Debug, Clone)]
pub struct HlsVariant {
    pub bandwidth: u64,
    pub resolution: Option<(u32, u32)>,
    pub uri: String,
}

/// The contents of a [`HlsVariant`].
#[verifier::ext_equal]
pub struct VariantView {
    pub bandwidth: nat,
    pub resolution: Option<(nat, nat)>,
    pub uri: Seq<char>,
}

pub open spec fn size_view(r: Option<(u32, u32)>) -> Option<(nat, nat)> {
    match r {
        Some((w, h)) => Some((w as nat, h as nat)),
        None => None,
    }
}

impl View for HlsVariant {
    type V = VariantView;

    open spec fn view(&self) -> VariantView {
        VariantView {
            bandwidth: self.bandwidth as nat,
            resolution: size_view(self.resolution),
            uri: self.uri@,
        }
    }
}

pub open spec fn variants_view(v: Seq<HlsVariant>) -> Seq<VariantView> {
    Seq::new(v.len(), |i: int| v[i]@)
}

/// The two numbers of `640x360`.
pub open spec fn resolution_of(s: Seq<char>) -> Option<(nat, nat)> {
    let i = text::index_of(s, CharClass::One('x')) as int;
    if i >= s.len() {
        None
    } else {
        match (text::number(s.take(i), u32::MAX as nat), text::number(s.skip(i + 1), u32::MAX as nat)) {
            (Some(w), Some(h)) => Some((w, h)),
            _ => None,
        }
    }
}

/// Reads `640x360`.
pub fn parse_resolution(s: &str) -> (r: Option<(u32, u32)>)
    ensures
        size_view(r) == resolution_of(s@),
{
    let all = chars_of(s);
    let c = all.as_slice();
    let i = position(c, CharClass::One('x'));
    if i >= c.len() {
        return None;
    }
    match (
        parse_number(&c[0..i], u32::MAX as u64),
        parse_number(&c[i + 1..c.len()], u32::MAX as u64),
    ) {
        (Some(w), Some(h)) => Some((w as u32, h as u32)),
        _ => None,
    }
}

/// The lines of `list`, trimmed, without the empty ones.
pub open spec fn filled_lines(list: Seq<Seq<char>>) -> Seq<Seq<char>>
    decreases list.len(),
{
    if list.len() == 0 {
        Seq::empty()
    } else {
        let head = filled_lines(list.drop_last());
        let line = text::trim(list.last());
        if line.len() == 0 {
            head
        } else {
            head.push(line)
        }
    }
}

fn keep_filled<'a>(list: &Vec<&'a [char]>) -> (r: Vec<&'a [char]>)
    ensures
        text::slice_views(r@) == filled_lines(text::slice_views(list@)),
{
    let ghost all = text::slice_views(list@);
    let mut out: Vec<&'a [char]> = Vec::new();
    let mut i: usize = 0;
    assert(text::slice_views(out@) =~= Seq::empty());
    while i < list.len()
        invariant
            i <= list.len(),
            all == text::slice_views(list@),
            text::slice_views(out@) == filled_lines(all.take(i as int)),
        decreases list.len() - i,
    {
        assert(all.take(i + 1).drop_last() =~= all.take(i as int));
        assert(all.take(i + 1).last() == list@[i as int]@);
        let line = trimmed(list[i]);
        if line.len() > 0 {
            let ghost done = text::slice_views(out@);
            out.push(line);
            assert(text::slice_views(out@) =~= done.push(line@));
        }
        i = i + 1;
    }
    assert(all.take(i as int) =~= all);
    out
}

/// A line that is a tag or a comment.
pub open spec fn is_tag(line: Seq<char>) -> bool {
    line.len() > 0 && line[0] == '#'
}

/// `list` from its first line that is no tag.
pub open spec fn from_uri(list: Seq<Seq<char>>) -> Seq<Seq<char>>
    decreases list.len(),
{
    if list.len() > 0 && is_tag(list[0]) {
        from_uri(list.skip(1))
    } else {
        list
    }
}

/// What is left is an end of `list`.
pub proof fn lemma_from_uri(list: Seq<Seq<char>>)
    ensures
        from_uri(list).len() <= list.len(),
    decreases list.len(),
{
    if list.len() > 0 && is_tag(list[0]) {
        lemma_from_uri(list.skip(1));
    }
}

/// A rendition as a master playlist writes it.
#[derive(Debug, Clone)]
pub struct MasterEntry {
    pub bandwidth: u64,
    pub resolution: Option<(u32, u32)>,
    pub reference: String,
}

/// The contents of a [`MasterEntry`].
#[verifier::ext_equal]
pub struct MasterView {
    pub bandwidth: nat,
    pub resolution: Option<(nat, nat)>,
    pub reference: Seq<char>,
}

impl View for MasterEntry {
    type V = MasterView;

    open spec fn view(&self) -> MasterView {
        MasterView {
            bandwidth: self.bandwidth as nat,
            resolution: size_view(self.resolution),
            reference: self.reference@,
        }
    }
}

pub open spec fn entries_view(v: Seq<MasterEntry>) -> Seq<MasterView> {
    Seq::new(v.len(), |i: int| v[i]@)
}

/// The rendition that a tag with the attributes `rest` announces.
pub open spec fn master_entry(rest: Seq<char>, reference: Seq<char>) -> MasterView {
    let attrs = markup::attrs_of(rest);
    MasterView {
        bandwidth: match markup::attr_of(attrs, "BANDWIDTH"@) {
            Some(v) => match text::number(v, u64::MAX as nat) {
                Some(n) => n,
                None => 0,
            },
            None => 0,
        },
        resolution: match markup::attr_of(attrs, "RESOLUTION"@) {
            Some(v) => resolution_of(v),
            None => None,
        },
        reference,
    }
}

/// The renditions in the lines of a master playlist: each
/// `#EXT-X-STREAM-INF` tag goes with the first line after it that is no tag.
pub open spec fn entries_in(list: Seq<Seq<char>>) -> Seq<MasterView>
    decreases list.len(),
{
    if list.len() == 0 {
        Seq::empty()
    } else {
        match text::strip_prefix(list[0], "#EXT-X-STREAM-INF:"@) {
            None => entries_in(list.skip(1)),
            Some(rest) => {
                let tail = from_uri(list.skip(1));
                proof {
                    lemma_from_uri(list.skip(1));
                }
                if tail.len() == 0 {
                    Seq::empty()
                } else {
                    seq![master_entry(rest, tail[0])] + entries_in(tail.skip(1))
                }
            },
        }
    }
}

/// The renditions of a master playlist, as it writes them.
pub open spec fn master_entries(text: Seq<char>) -> Seq<MasterView> {
    entries_in(filled_lines(text::lines(text)))
}

/// Renditions with their references resolved; the first one that does not
/// resolve is the error.
pub open spec fn variants_of(base: Seq<char>, entries: Seq<MasterView>) -> Result<
    Seq<VariantView>,
    ErrorView,
>
    decreases entries.len(),
{
    if entries.len() == 0 {
        Ok(Seq::empty())
    } else {
        match variants_of(base, entries.drop_last()) {
            Err(e) => Err(e),
            Ok(done) => match urls::resolved(base, entries.last().reference) {
                Err(e) => Err(e),
                Ok(uri) => Ok(
                    done.push(
                        VariantView {
                            bandwidth: entries.last().bandwidth,
                            resolution: entries.last().resolution,
                            uri,
                        },
                    ),
                ),
            },
        }
    }
}

/// The renditions of a master playlist.
pub open spec fn master_of(base: Seq<char>, text: Seq<char>) -> Result<
    Seq<VariantView>,
    ErrorView,
> {
    variants_of(base, master_entries(text))
}

pub open spec fn master_view(r: Result<Vec<HlsVariant>, CcdmError>) -> Result<
    Seq<VariantView>,
    ErrorView,
> {
    match r {
        Ok(v) => Ok(variants_view(v@)),
        Err(e) => Err(e@),
    }
}

fn read_entry(rest: &[char], reference: &[char]) -> (r: MasterEntry)
    ensures
        r@ == master_entry(rest@, reference@),
{
    let attrs = parse_attrs(rest);
    let bandwidth: u64 = match attr(&attrs, "BANDWIDTH") {
        Some(v) => match parse_number(chars_of(v.as_str()).as_slice(), u64::MAX) {
            Some(n) => n,
            None => 0,
        },
        None => 0,
    };
    let resolution = match attr(&attrs, "RESOLUTION") {
        Some(v) => parse_resolution(v.as_str()),
        None => None,
    };
    MasterEntry { bandwidth, resolution, reference: string_of(reference) }
}

/// The renditions of a master playlist, as it writes them.
pub fn scan_master(text: &str) -> (r: Vec<MasterEntry>)
    ensures
        entries_view(r@) == master_entries(text@),
{
    let all = chars_of(text);
    let raw = lines_of(all.as_slice());
    let list = keep_filled(&raw);
    let ghost ls = text::slice_views(list@);
    let mut out: Vec<MasterEntry> = Vec::new();
    let mut i: usize = 0;
    assert(ls.skip(0) =~= ls);
    assert(entries_view(out@) + entries_in(ls) =~= entries_in(ls));
    while i < list.len()
        invariant
            i <= list.len(),
            ls == text::slice_views(list@),
            ls == filled_lines(text::lines(text@)),
            entries_in(ls) == entries_view(out@) + entries_in(ls.skip(i as int)),
        decreases list.len() - i,
    {
        let ghost here = ls.skip(i as int);
        assert(here[0] == list@[i as int]@);
        assert(here.skip(1) =~= ls.skip(i + 1));
        match without_prefix(list[i], "#EXT-X-STREAM-INF:") {
            None => {
                i = i + 1;
            },
            Some(rest) => {
                let ghost done = entries_view(out@);
                let ghost start = i;
                i = i + 1;
                while i < list.len() && list[i].len() > 0 && list[i][0] == '#'
                    invariant
                        start < i <= list.len(),
                        ls == text::slice_views(list@),
                        from_uri(here.skip(1)) == from_uri(ls.skip(i as int)),
                    decreases list.len() - i,
                {
                    assert(ls.skip(i as int)[0] == list@[i as int]@);
                    assert(ls.skip(i as int).skip(1) =~= ls.skip(i + 1));
                    i = i + 1;
                }
                let ghost tail = ls.skip(i as int);
                if i >= list.len() {
                    assert(tail =~= Seq::empty());
                    assert(done + Seq::<MasterView>::empty() =~= done);
                    return out;
                }
                assert(tail[0] == list@[i as int]@);
                assert(from_uri(tail) == tail);
                let entry = read_entry(rest, list[i]);
                out.push(entry);
                assert(entries_view(out@) =~= done.push(entry@));
                assert(tail.skip(1) =~= ls.skip(i + 1));
                assert(done + (seq![entry@] + entries_in(tail.skip(1))) =~= entries_view(out@)
                    + entries_in(tail.skip(1)));
                i = i + 1;
            },
        }
    }
    assert(entries_view(out@) + entries_in(ls.skip(i as int)) =~= entries_view(out@));
    out
}

proof fn lemma_variants_prefix(base: Seq<char>, entries: Seq<MasterView>, k: int)
    requires
        0 <= k <= entries.len(),
        variants_of(base, entries.take(k)) is Err,
    ensures
        variants_of(base, entries) == variants_of(base, entries.take(k)),
    decreases entries.len(),
{
    if k < entries.len() {
        assert(entries.drop_last().take(k) =~= entries.take(k));
        lemma_variants_prefix(base, entries.drop_last(), k);
    } else {
        assert(entries.take(k) =~= entries);
    }
}

proof fn lemma_no_entries(list: Seq<Seq<char>>)
    requires
        forall|i: int|
            0 <= i < list.len() ==> text::strip_prefix(
                #[trigger] list[i],
                "#EXT-X-STREAM-INF:"@,
            ) is None,
    ensures
        entries_in(list) == Seq::<MasterView>::empty(),
    decreases list.len(),
{
    if list.len() > 0 {
        let rest = list.skip(1);
        assert forall|i: int| 0 <= i < rest.len() implies text::strip_prefix(
            #[trigger] rest[i],
            "#EXT-X-STREAM-INF:"@,
        ) is None by {
            assert(rest[i] == list[i + 1]);
        }
        lemma_no_entries(rest);
    }
}

/// A text without `EXT-X-STREAM-INF` tags, such as a media playlist, has no
/// renditions, wherever it comes from.
pub proof fn media_playlist_has_no_renditions(base: Seq<char>, text: Seq<char>)
    requires
        forall|i: int|
            0 <= i < filled_lines(text::lines(text)).len() ==> text::strip_prefix(
                #[trigger] filled_lines(text::lines(text))[i],
                "#EXT-X-STREAM-INF:"@,
            ) is None,
    ensures
        master_of(base, text) == Ok::<Seq<VariantView>, ErrorView>(Seq::empty()),
{
    lemma_no_entries(filled_lines(text::lines(text)));
}

/// Parse an HLS master playlist; empty when `text` is already a media
/// playlist (no `EXT-X-STREAM-INF` tags).
pub fn parse_master(base: &str, text: &str) -> (r: Result<Vec<HlsVariant>, CcdmError>)
    ensures
        master_view(r) == master_of(base@, text@),
{
    let entries = scan_master(text);
    let ghost all = entries_view(entries@);
    let mut out: Vec<HlsVariant> = Vec::new();
    let mut i: usize = 0;
    assert(all.take(0) =~= Seq::empty());
    assert(variants_view(out@) =~= Seq::empty());
    while i < entries.len()
        invariant
            i <= entries@.len(),
            all == entries_view(entries@),
            all == master_entries(text@),
            variants_of(base@, all.take(i as int)) == Ok::<Seq<VariantView>, ErrorView>(
                variants_view(out@),
            ),
        decreases entries.len() - i,
    {
        assert(all.take(i + 1).drop_last() =~= all.take(i as int));
        assert(all.take(i + 1).last() == entries@[i as int]@);
        match resolve_url(base, entries[i].reference.as_str()) {
            Err(e) => {
                proof {
                    lemma_variants_prefix(base@, all, i + 1);
                }
                return Err(e);
            },
            Ok(uri) => {
                let ghost done = variants_view(out@);
                let v = HlsVariant {
                    bandwidth: entries[i].bandwidth,
                    resolution: entries[i].resolution,
                    uri,
                };
                out.push(v);
                assert(variants_view(out@) =~= done.push(v@));
            },
        }
        i = i + 1;
    }
    assert(all.take(i as int) =~= all);
    Ok(out)
}

/// One entry of an HLS media playlist.
#[derive(Debug, Clone)]
pub struct HlsSegment {
    pub uri: String,
    /// What the `#EXTINF` before the entry gives as its duration; without
    /// one, or when it is no number, the duration counts as zero.
    pub duration: Option<String>,
}

/// The texts of a [`HlsSegment`].
#[verifier::ext_equal]
pub struct SegmentView {
    pub uri: Seq<char>,
    pub duration: Option<Seq<char>>,
}

impl View for HlsSegment {
    type V = SegmentView;

    open spec fn view(&self) -> SegmentView {
        SegmentView { uri: self.uri@, duration: text::opt_view(self.duration) }
    }
}

pub open spec fn segments_view(v: Seq<HlsSegment>) -> Seq<SegmentView> {
    Seq::new(v.len(), |i: int| v[i]@)
}

/// Parsed HLS media playlist.
#[derive(Debug, Clone)]
pub struct HlsMedia {
    pub segments: Vec<HlsSegment>,
    /// `#EXT-X-MAP` init fragment for fMP4 playlists.
    pub map_uri: Option<String>,
    /// `#EXT-X-KEY` with anything but `METHOD=NONE` was seen.
    pub encrypted: bool,
}

/// The contents of a [`HlsMedia`].
#[verifier::ext_equal]
pub struct MediaView {
    pub segments: Seq<SegmentView>,
    pub map_uri: Option<Seq<char>>,
    pub encrypted: bool,
}

impl View for HlsMedia {
    type V = MediaView;

    open spec fn view(&self) -> MediaView {
        MediaView {
            segments: segments_view(self.segments@),
            map_uri: text::opt_view(self.map_uri),
            encrypted: self.encrypted,
        }
    }
}

/// Something that a media playlist has fetched, as it writes it.
#[derive(Debug, Clone)]
pub enum MediaItem {
    /// The init fragment from here on.
    Init(String),
    /// An entry and the duration before it.
    Segment(String, Option<String>),
}

/// The texts of a [`MediaItem`].
#[verifier::ext_equal]
pub enum ItemView {
    Init(Seq<char>),
    Segment(Seq<char>, Option<Seq<char>>),
}

impl View for MediaItem {
    type V = ItemView;

    open spec fn view(&self) -> ItemView {
        match *self {
            MediaItem::Init(u) => ItemView::Init(u@),
            MediaItem::Segment(u, d) => ItemView::Segment(u@, text::opt_view(d)),
        }
    }
}

pub open spec fn items_view(v: Seq<MediaItem>) -> Seq<ItemView> {
    Seq::new(v.len(), |i: int| v[i]@)
}

/// A media playlist as it is written.
#[derive(Debug, Clone)]
pub struct MediaScan {
    pub items: Vec<MediaItem>,
    pub encrypted: bool,
    /// A duration whose entry has not come.
    pub pending: Option<String>,
}

/// The contents of a [`MediaScan`].
#[verifier::ext_equal]
pub struct ScanView {
    pub items: Seq<ItemView>,
    pub encrypted: bool,
    pub pending: Option<Seq<char>>,
}

impl View for MediaScan {
    type V = ScanView;

    open spec fn view(&self) -> ScanView {
        ScanView {
            items: items_view(self.items@),
            encrypted: self.encrypted,
            pending: text::opt_view(self.pending),
        }
    }
}

impl ScanView {
    /// Nothing read.
    pub open spec fn start() -> ScanView {
        ScanView { items: Seq::empty(), encrypted: false, pending: None }
    }

    /// What one line does to what was read before it.
    pub open spec fn line(self, line: Seq<char>) -> ScanView {
        if line.len() == 0 {
            self
        } else if text::strip_prefix(line, "#EXTINF:"@) is Some {
            let rest = text::strip_prefix(line, "#EXTINF:"@)->0;
            let duration = text::trim(text::before(rest, CharClass::One(',')));
            ScanView { pending: Some(duration), ..self }
        } else if text::strip_prefix(line, "#EXT-X-MAP:"@) is Some {
            let rest = text::strip_prefix(line, "#EXT-X-MAP:"@)->0;
            match markup::attr_of(markup::attrs_of(rest), "URI"@) {
                Some(uri) => ScanView { items: self.items.push(ItemView::Init(uri)), ..self },
                None => self,
            }
        } else if text::strip_prefix(line, "#EXT-X-KEY:"@) is Some {
            let rest = text::strip_prefix(line, "#EXT-X-KEY:"@)->0;
            if markup::attr_of(markup::attrs_of(rest), "METHOD"@) == Some("NONE"@) {
                self
            } else {
                ScanView { encrypted: true, ..self }
            }
        } else if is_tag(line) {
            self
        } else {
            ScanView {
                items: self.items.push(ItemView::Segment(line, self.pending)),
                pending: None,
                ..self
            }
        }
    }
}

/// What the lines of a media playlist come to.
pub open spec fn scan_lines(list: Seq<Seq<char>>) -> ScanView
    decreases list.len(),
{
    if list.len() == 0 {
        ScanView::start()
    } else {
        scan_lines(list.drop_last()).line(text::trim(list.last()))
    }
}

/// A media playlist as it is written.
pub open spec fn media_scan(text: Seq<char>) -> ScanView {
    scan_lines(text::lines(text))
}

/// What the items of a playlist come to with their references resolved, the
/// last init fragment counting; the first one that does not resolve is the
/// error.
pub open spec fn media_items(base: Seq<char>, items: Seq<ItemView>) -> Result<MediaView, ErrorView>
    decreases items.len(),
{
    if items.len() == 0 {
        Ok(MediaView { segments: Seq::empty(), map_uri: None, encrypted: false })
    } else {
        match media_items(base, items.drop_last()) {
            Err(e) => Err(e),
            Ok(m) => match items.last() {
                ItemView::Init(reference) => match urls::resolved(base, reference) {
                    Ok(u) => Ok(MediaView { map_uri: Some(u), ..m }),
                    Err(e) => Err(e),
                },
                ItemView::Segment(reference, duration) => match urls::resolved(base, reference) {
                    Ok(uri) => Ok(
                        MediaView {
                            segments: m.segments.push(SegmentView { uri, duration }),
                            ..m
                        },
                    ),
                    Err(e) => Err(e),
                },
            },
        }
    }
}

/// A media playlist with its references resolved.
pub open spec fn media_of(base: Seq<char>, text: Seq<char>) -> Result<MediaView, ErrorView> {
    match media_items(base, media_scan(text).items) {
        Ok(m) => Ok(MediaView { encrypted: media_scan(text).encrypted, ..m }),
        Err(e) => Err(e),
    }
}

pub open spec fn media_view(r: Result<HlsMedia, CcdmError>) -> Result<MediaView, ErrorView> {
    match r {
        Ok(m) => Ok(m@),
        Err(e) => Err(e@),
    }
}

fn add_item(scan: &mut MediaScan, item: MediaItem)
    ensures
        final(scan)@ == (ScanView { items: old(scan)@.items.push(item@), ..old(scan)@ }),
{
    let ghost was = scan@.items;
    scan.items.push(item);
    assert(scan@.items =~= was.push(item@));
}

fn read_line(scan: MediaScan, line: &[char]) -> (r: MediaScan)
    ensures
        r@ == scan@.line(line@),
{
    let mut scan = scan;
    if line.len() == 0 {
        return scan;
    }
    if let Some(rest) = without_prefix(line, "#EXTINF:") {
        scan.pending = Some(string_of(trimmed(until(rest, CharClass::One(',')))));
        return scan;
    }
    if let Some(rest) = without_prefix(line, "#EXT-X-MAP:") {
        if let Some(uri) = attr(&parse_attrs(rest), "URI") {
            add_item(&mut scan, MediaItem::Init(uri));
        }
        return scan;
    }
    if let Some(rest) = without_prefix(line, "#EXT-X-KEY:") {
        let open = match attr(&parse_attrs(rest), "METHOD") {
            Some(method) => same_text(method.as_str(), "NONE"),
            None => false,
        };
        if !open {
            scan.encrypted = true;
        }
        return scan;
    }
    if line[0] == '#' {
        return scan;
    }
    let pending = copy_opt(&scan.pending);
    scan.pending = None;
    add_item(&mut scan, MediaItem::Segment(string_of(line), pending));
    scan
}

/// A media playlist as it is written: what it has fetched, in order, and
/// whether it is encrypted.
pub fn scan_media(text: &str) -> (r: MediaScan)
    ensures
        r@ == media_scan(text@),
{
    let all = chars_of(text);
    let list = lines_of(all.as_slice());
    let ghost ls = text::slice_views(list@);
    let mut scan = MediaScan { items: Vec::new(), encrypted: false, pending: None };
    let mut i: usize = 0;
    assert(scan@ =~= ScanView::start());
    assert(ls.take(0) =~= Seq::empty());
    while i < list.len()
        invariant
            i <= list.len(),
            ls == text::slice_views(list@),
            scan@ == scan_lines(ls.take(i as int)),
        decreases list.len() - i,
    {
        assert(ls.take(i + 1).drop_last() =~= ls.take(i as int));
        assert(ls.take(i + 1).last() == list@[i as int]@);
        scan = read_line(scan, trimmed(list[i]));
        i = i + 1;
    }
    assert(ls.take(i as int) =~= ls);
    scan
}

proof fn lemma_media_prefix(base: Seq<char>, items: Seq<ItemView>, k: int)
    requires
        0 <= k <= items.len(),
        media_items(base, items.take(k)) is Err,
    ensures
        media_items(base, items) == media_items(base, items.take(k)),
    decreases items.len(),
{
    if k < items.len() {
        assert(items.drop_last().take(k) =~= items.take(k));
        lemma_media_prefix(base, items.drop_last(), k);
    } else {
        assert(items.take(k) =~= items);
    }
}

/// Parse an HLS media playlist (segments, init map, encryption flag).
pub fn parse_media(base: &str, text: &str) -> (r: Result<HlsMedia, CcdmError>)
    ensures
        media_view(r) == media_of(base@, text@),
{
    let scan = scan_media(text);
    let ghost all = items_view(scan.items@);
    let mut media = HlsMedia { segments: Vec::new(), map_uri: None, encrypted: false };
    let mut i: usize = 0;
    assert(all.take(0) =~= Seq::empty());
    assert(media@.segments =~= Seq::empty());
    while i < scan.items.len()
        invariant
            i <= scan.items@.len(),
            scan@ == media_scan(text@),
            all == items_view(scan.items@),
            media_items(base@, all.take(i as int)) == Ok::<MediaView, ErrorView>(media@),
            !media.encrypted,
        decreases scan.items.len() - i,
    {
        assert(all.take(i + 1).drop_last() =~= all.take(i as int));
        assert(all.take(i + 1).last() == scan.items@[i as int]@);
        let reference = match &scan.items[i] {
            MediaItem::Init(u) => u,
            MediaItem::Segment(u, _) => u,
        };
        let uri = match resolve_url(base, reference.as_str()) {
            Ok(uri) => uri,
            Err(e) => {
                proof {
                    lemma_media_prefix(base@, all, i + 1);
                }
                return Err(e);
            },
        };
        match &scan.items[i] {
            MediaItem::Init(_) => {
                media.map_uri = Some(uri);
            },
            MediaItem::Segment(_, duration) => {
                let ghost done = media@.segments;
                let segment = HlsSegment { uri, duration: copy_opt(duration) };
                media.segments.push(segment);
                assert(media@.segments =~= done.push(segment@));
            },
        }
        i = i + 1;
    }
    assert(all.take(i as int) =~= all);
    media.encrypted = scan.encrypted;
    Ok(media)
}

/// A trimmed line that names something to fetch: it is not empty and begins
/// with something else than `#`.
pub open spec fn names_entry() -> spec_fn(Seq<char>) -> bool {
    |line: Seq<char>| line.len() > 0 && line[0] != '#'
}

/// The lines of a text, each trimmed.
pub open spec fn trimmed_lines(text: Seq<char>) -> Seq<Seq<char>> {
    text::lines(text).map_values(|line: Seq<char>| text::trim(line))
}

/// The lines of a playlist that name its entries, trimmed, whole and in order.
pub open spec fn entry_lines(text: Seq<char>) -> Seq<Seq<char>> {
    trimmed_lines(text).filter(names_entry())
}

spec fn is_segment() -> spec_fn(ItemView) -> bool {
    |item: ItemView| item is Segment
}

spec fn segment_refs(items: Seq<ItemView>) -> Seq<Seq<char>> {
    items.filter(is_segment()).map_values(|item: ItemView| item->Segment_0)
}

proof fn lemma_filter_push<A>(s: Seq<A>, x: A, pred: spec_fn(A) -> bool)
    ensures
        s.push(x).filter(pred) == (if pred(x) {
            s.filter(pred).push(x)
        } else {
            s.filter(pred)
        }),
{
    reveal(Seq::filter);
    assert(s.push(x).drop_last() =~= s);
    assert(s.push(x).last() == x);
}

proof fn lemma_tags_differ(line: Seq<char>)
    ensures
        text::strip_prefix(line, "#EXTINF:"@) is Some ==> is_tag(line) && line[4] == 'I',
        text::strip_prefix(line, "#EXT-X-MAP:"@) is Some ==> is_tag(line) && line[4] == '-'
            && line[6] == '-' && line[7] == 'M',
        text::strip_prefix(line, "#EXT-X-KEY:"@) is Some ==> is_tag(line) && line[4] == '-'
            && line[6] == '-' && line[7] == 'K',
{
    reveal_strlit("#EXTINF:");
    reveal_strlit("#EXT-X-MAP:");
    reveal_strlit("#EXT-X-KEY:");
    if text::strip_prefix(line, "#EXTINF:"@) is Some {
        let p = line.subrange(0, 8);
        assert(p[0] == line[0] && p[4] == line[4]);
    }
    if text::strip_prefix(line, "#EXT-X-MAP:"@) is Some {
        let p = line.subrange(0, 11);
        assert(p[0] == line[0] && p[4] == line[4] && p[6] == line[6] && p[7] == line[7]);
    }
    if text::strip_prefix(line, "#EXT-X-KEY:"@) is Some {
        let p = line.subrange(0, 11);
        assert(p[0] == line[0] && p[4] == line[4] && p[6] == line[6] && p[7] == line[7]);
    }
}

proof fn lemma_scanned_refs(list: Seq<Seq<char>>)
    ensures
        segment_refs(scan_lines(list).items) == list.map_values(
            |line: Seq<char>| text::trim(line),
        ).filter(names_entry()),
    decreases list.len(),
{
    reveal(Seq::filter);
    let f = |line: Seq<char>| text::trim(line);
    let g = |item: ItemView| item->Segment_0;
    if list.len() > 0 {
        let init = list.drop_last();
        lemma_scanned_refs(init);
        let before = scan_lines(init);
        let line = text::trim(list.last());
        lemma_tags_differ(line);
        assert(list.map_values(f) =~= init.map_values(f).push(line));
        lemma_filter_push(init.map_values(f), line, names_entry());
        let after = before.line(line);
        if names_entry()(line) {
            let item = ItemView::Segment(line, before.pending);
            assert(after.items == before.items.push(item));
            lemma_filter_push(before.items, item, is_segment());
            assert(before.items.filter(is_segment()).push(item).map_values(g)
                =~= before.items.filter(is_segment()).map_values(g).push(line));
        } else if after.items != before.items {
            let item = after.items.last();
            assert(after.items =~= before.items.push(item));
            assert(item is Init);
            lemma_filter_push(before.items, item, is_segment());
        }
    } else {
        assert(list.map_values(f) =~= Seq::empty());
        assert(scan_lines(list).items =~= Seq::empty());
        assert(segment_refs(scan_lines(list).items) =~= Seq::empty());
    }
}

proof fn lemma_resolved_segments(base: Seq<char>, items: Seq<ItemView>)
    ensures
        match media_items(base, items) {
            Ok(m) => {
                &&& m.segments.len() == segment_refs(items).len()
                &&& forall|k: int|
                    0 <= k < m.segments.len() ==> urls::resolved(base, segment_refs(items)[k])
                        == Ok::<Seq<char>, ErrorView>((#[trigger] m.segments[k]).uri)
            },
            Err(e) => exists|i: int|
                {
                    &&& 0 <= i < items.len()
                    &&& urls::resolved(
                        base,
                        match #[trigger] items[i] {
                            ItemView::Init(u) => u,
                            ItemView::Segment(u, _) => u,
                        },
                    ) == Err::<Seq<char>, ErrorView>(e)
                },
        },
    decreases items.len(),
{
    reveal(Seq::filter);
    let g = |item: ItemView| item->Segment_0;
    if items.len() > 0 {
        let init = items.drop_last();
        let item = items.last();
        lemma_resolved_segments(base, init);
        assert(init.push(item) =~= items);
        lemma_filter_push(init, item, is_segment());
        if item is Segment {
            assert(init.filter(is_segment()).push(item).map_values(g) =~= segment_refs(init).push(
                item->Segment_0,
            ));
        }
        match media_items(base, init) {
            Ok(m) => {
                match media_items(base, items) {
                    Ok(n) => {
                        assert forall|k: int| 0 <= k < n.segments.len() implies urls::resolved(
                            base,
                            segment_refs(items)[k],
                        ) == Ok::<Seq<char>, ErrorView>((#[trigger] n.segments[k]).uri) by {
                            if k < m.segments.len() {
                                assert(n.segments[k] == m.segments[k]);
                            }
                        }
                    },
                    Err(_) => {
                        assert(items[items.len() - 1] == item);
                    },
                }
            },
            Err(e) => {
                let i = choose|i: int|
                    {
                        &&& 0 <= i < init.len()
                        &&& urls::resolved(
                            base,
                            match #[trigger] init[i] {
                                ItemView::Init(u) => u,
                                ItemView::Segment(u, _) => u,
                            },
                        ) == Err::<Seq<char>, ErrorView>(e)
                    };
                assert(items[i] == init[i]);
            },
        }
    } else {
        assert(segment_refs(items) =~= Seq::empty());
    }
}

/// The segments of a media playlist are the lines that name its entries, as
/// many and in that order, and the reference of each is the whole line,
/// resolved against the URL of the playlist.
pub proof fn segments_are_the_entry_lines(base: Seq<char>, text: Seq<char>)
    ensures
        media_of(base, text) matches Ok(m) ==> {
            &&& m.segments.len() == entry_lines(text).len()
            &&& forall|k: int|
                0 <= k < m.segments.len() ==> urls::resolved(base, entry_lines(text)[k]) == Ok::<
                    Seq<char>,
                    ErrorView,
                >((#[trigger] m.segments[k]).uri)
        },
{
    lemma_scanned_refs(text::lines(text));
    lemma_resolved_segments(base, media_scan(text).items);
}

/// A playlist as it is written has one segment item for each line that names
/// an entry, in that order, with the whole line as its reference.
pub proof fn references_are_whole_lines(text: Seq<char>)
    ensures
        ({
            let segments = media_scan(text).items.filter(|item: ItemView| item is Segment);
            &&& segments.len() == entry_lines(text).len()
            &&& forall|k: int|
                0 <= k < segments.len() ==> (#[trigger] segments[k])->Segment_0 == entry_lines(
                    text,
                )[k]
        }),
{
    lemma_scanned_refs(text::lines(text));
    let pred = |item: ItemView| item is Segment;
    assert(pred =~= is_segment());
    let segments = media_scan(text).items.filter(pred);
    let refs = segment_refs(media_scan(text).items);
    assert forall|k: int| 0 <= k < segments.len() implies (#[trigger] segments[k])->Segment_0
        == entry_lines(text)[k] by {
        assert(refs[k] == segments[k]->Segment_0);
    }
}

/// A playlist can be read whenever each of its references resolves.
pub proof fn resolving_playlist_is_read(base: Seq<char>, text: Seq<char>)
    requires
        forall|i: int|
            0 <= i < media_scan(text).items.len() ==> urls::resolved(
                base,
                match #[trigger] media_scan(text).items[i] {
                    ItemView::Init(u) => u,
                    ItemView::Segment(u, _) => u,
                },
            ) is Ok,
    ensures
        media_of(base, text) is Ok,
{
    lemma_resolved_segments(base, media_scan(text).items);
}

/// A line that says that what follows is encrypted.
pub open spec fn encrypts(line: Seq<char>) -> bool {
    &&& text::stands_at(line, "#EXT-X-KEY:"@, 0)
    &&& markup::attr_of(
        markup::attrs_of(line.skip("#EXT-X-KEY:"@.len() as int)),
        "METHOD"@,
    ) != Some("NONE"@)
}

proof fn lemma_stands(line: Seq<char>, pat: Seq<char>)
    ensures
        text::stands_at(line, pat, 0) <==> text::strip_prefix(line, pat) is Some,
{
    if pat.is_prefix_of(line) {
        assert forall|k: int| 0 <= k < pat.len() implies line[0 + k] == #[trigger] pat[k] by {
            assert(line.subrange(0, pat.len() as int)[k] == pat[k]);
        }
    }
    if text::stands_at(line, pat, 0) {
        assert forall|k: int| 0 <= k < pat.len() implies line.subrange(0, pat.len() as int)[k]
            == pat[k] by {
            assert(line[0 + k] == pat[k]);
        }
        assert(line.subrange(0, pat.len() as int) =~= pat);
    }
}

proof fn lemma_encrypted(list: Seq<Seq<char>>)
    ensures
        scan_lines(list).encrypted <==> exists|i: int|
            0 <= i < list.len() && encrypts(text::trim(#[trigger] list[i])),
    decreases list.len(),
{
    if list.len() > 0 {
        let init = list.drop_last();
        let n = list.len() - 1;
        let line = text::trim(list.last());
        lemma_encrypted(init);
        lemma_tags_differ(line);
        lemma_stands(line, "#EXT-X-KEY:"@);
        if scan_lines(init).encrypted {
            let i = choose|i: int| 0 <= i < init.len() && encrypts(text::trim(#[trigger] init[i]));
            assert(encrypts(text::trim(list[i])));
        }
        if encrypts(line) {
            assert(encrypts(text::trim(list[n])));
        }
        if exists|i: int| 0 <= i < list.len() && encrypts(text::trim(#[trigger] list[i])) {
            let i = choose|i: int| 0 <= i < list.len() && encrypts(text::trim(#[trigger] list[i]));
            if i < n {
                assert(encrypts(text::trim(init[i])));
            }
        }
    }
}

/// A playlist is encrypted exactly when one of its lines is a key tag with any
/// method but `NONE`, or with none at all.
pub proof fn key_tags_encrypt(text: Seq<char>)
    ensures
        media_scan(text).encrypted <==> exists|i: int|
            0 <= i < text::lines(text).len() && encrypts(
                text::trim(#[trigger] text::lines(text)[i]),
            ),
{
    lemma_encrypted(text::lines(text));
}

/// The init fragment that a line names, where it names one.
pub open spec fn init_in(line: Seq<char>) -> Option<Seq<char>> {
    if text::stands_at(line, "#EXT-X-MAP:"@, 0) {
        markup::attr_of(markup::attrs_of(line.skip("#EXT-X-MAP:"@.len() as int)), "URI"@)
    } else {
        None
    }
}

spec fn last_init(items: Seq<ItemView>) -> Option<Seq<char>>
    decreases items.len(),
{
    if items.len() == 0 {
        None
    } else {
        match items.last() {
            ItemView::Init(u) => Some(u),
            ItemView::Segment(_, _) => last_init(items.drop_last()),
        }
    }
}

proof fn lemma_last_init(list: Seq<Seq<char>>)
    ensures
        match last_init(scan_lines(list).items) {
            Some(u) => exists|i: int|
                {
                    &&& 0 <= i < list.len()
                    &&& init_in(text::trim(#[trigger] list[i])) == Some(u)
                    &&& forall|j: int|
                        i < j < list.len() ==> init_in(text::trim(#[trigger] list[j])) is None
                },
            None => forall|j: int|
                0 <= j < list.len() ==> init_in(text::trim(#[trigger] list[j])) is None,
        },
    decreases list.len(),
{
    if list.len() > 0 {
        let init = list.drop_last();
        let n = list.len() - 1;
        let line = text::trim(list.last());
        let before = scan_lines(init);
        let after = before.line(line);
        lemma_last_init(init);
        lemma_tags_differ(line);
        lemma_stands(line, "#EXT-X-MAP:"@);
        if init_in(line) is Some {
            assert(after.items.last() == ItemView::Init(init_in(line)->0));
            assert(init_in(text::trim(list[n])) == last_init(after.items));
        } else {
            if after.items != before.items {
                assert(after.items.drop_last() =~= before.items);
                assert(after.items.last() is Segment);
            }
            assert(last_init(after.items) == last_init(before.items));
            match last_init(before.items) {
                Some(u) => {
                    let i = choose|i: int|
                        {
                            &&& 0 <= i < init.len()
                            &&& init_in(text::trim(#[trigger] init[i])) == Some(u)
                            &&& forall|j: int|
                                i < j < init.len() ==> init_in(
                                    text::trim(#[trigger] init[j]),
                                ) is None
                        };
                    assert(init_in(text::trim(list[i])) == Some(u));
                    assert forall|j: int| i < j < list.len() implies init_in(
                        text::trim(#[trigger] list[j]),
                    ) is None by {
                        if j < n {
                            assert(list[j] == init[j]);
                        }
                    }
                },
                None => {
                    assert forall|j: int| 0 <= j < list.len() implies init_in(
                        text::trim(#[trigger] list[j]),
                    ) is None by {
                        if j < n {
                            assert(list[j] == init[j]);
                        }
                    }
                },
            }
        }
    }
}

proof fn lemma_map_uri(base: Seq<char>, items: Seq<ItemView>)
    ensures
        media_items(base, items) matches Ok(m) ==> match last_init(items) {
            Some(u) => m.map_uri is Some && urls::resolved(base, u) == Ok::<Seq<char>, ErrorView>(
                m.map_uri->0,
            ),
            None => m.map_uri is None,
        },
    decreases items.len(),
{
    if items.len() > 0 {
        lemma_map_uri(base, items.drop_last());
    }
}

/// The init fragment of a playlist is the one that its last map tag with a URI
/// names, resolved; a playlist without such a tag has none.
pub proof fn last_map_is_the_init_fragment(base: Seq<char>, text: Seq<char>, m: MediaView)
    requires
        media_of(base, text) == Ok::<MediaView, ErrorView>(m),
    ensures
        match m.map_uri {
            Some(uri) => exists|i: int|
                {
                    &&& 0 <= i < text::lines(text).len()
                    &&& init_in(text::trim(#[trigger] text::lines(text)[i])) is Some
                    &&& urls::resolved(base, init_in(text::trim(text::lines(text)[i]))->0) == Ok::<
                        Seq<char>,
                        ErrorView,
                    >(uri)
                    &&& forall|j: int|
                        i < j < text::lines(text).len() ==> init_in(
                            text::trim(#[trigger] text::lines(text)[j]),
                        ) is None
                },
            None => forall|j: int|
                0 <= j < text::lines(text).len() ==> init_in(
                    text::trim(#[trigger] text::lines(text)[j]),
                ) is None,
        },
{
    lemma_last_init(text::lines(text));
    lemma_map_uri(base, media_scan(text).items);
}

/// The duration of an entry is the one that the last `#EXTINF` before it gives,
/// up to its comma, where no other entry comes between; tags between them do
/// not matter, and an entry has the duration for itself.
pub proof fn duration_goes_with_the_next_entry(
    before: Seq<Seq<char>>,
    d: Seq<char>,
    title: Seq<char>,
    between: Seq<Seq<char>>,
    line: Seq<char>,
)
    requires
        text::free_of(d, CharClass::One(',')),
        text::trim("#EXTINF:"@ + d + seq![','] + title) == "#EXTINF:"@ + d + seq![','] + title,
        forall|i: int|
            0 <= i < between.len() ==> is_tag(text::trim(#[trigger] between[i]))
                && !text::stands_at(text::trim(between[i]), "#EXTINF:"@, 0),
        text::trim(line) == line,
        line.len() > 0,
        line[0] != '#',
    ensures
        ({
            let tag = "#EXTINF:"@ + d + seq![','] + title;
            let scan = scan_lines((before.push(tag) + between).push(line));
            &&& scan.items.len() > 0
            &&& scan.items.last() == ItemView::Segment(line, Some(text::trim(d)))
            &&& scan.pending is None
            &&& scan.line(line).items.last() == ItemView::Segment(line, None)
        }),
{
    let tag = "#EXTINF:"@ + d + seq![','] + title;
    let list = before.push(tag);
    let rest = d + seq![','] + title;
    assert(tag =~= "#EXTINF:"@ + rest);
    assert(tag.subrange(0, "#EXTINF:"@.len() as int) =~= "#EXTINF:"@);
    assert(tag.skip("#EXTINF:"@.len() as int) =~= rest);
    text::cut_at_the_first(d, ',', title, CharClass::One(','));
    reveal_strlit("#EXTINF:");
    assert(list.drop_last() =~= before);
    assert(scan_lines(list).pending == Some(text::trim(d)));
    lemma_pending_kept(list, between);
    let all = (list + between).push(line);
    assert(all.drop_last() =~= list + between);
    lemma_tags_differ(line);
}

proof fn lemma_pending_kept(list: Seq<Seq<char>>, between: Seq<Seq<char>>)
    requires
        forall|i: int|
            0 <= i < between.len() ==> is_tag(text::trim(#[trigger] between[i]))
                && !text::stands_at(text::trim(between[i]), "#EXTINF:"@, 0),
    ensures
        scan_lines(list + between).pending == scan_lines(list).pending,
    decreases between.len(),
{
    if between.len() > 0 {
        let b = between.drop_last();
        assert forall|i: int| 0 <= i < b.len() implies is_tag(text::trim(#[trigger] b[i]))
            && !text::stands_at(text::trim(b[i]), "#EXTINF:"@, 0) by {
            assert(b[i] == between[i]);
        }
        lemma_pending_kept(list, b);
        assert((list + between).drop_last() =~= list + b);
        let last = between[between.len() - 1];
        assert((list + between).last() == last);
        lemma_stands(text::trim(last), "#EXTINF:"@);
    } else {
        assert(list + between =~= list);
    }
}

/// What was read of the lines before is kept by every further line.
pub proof fn read_items_are_kept(st: ScanView, line: Seq<char>)
    ensures
        st.line(line).items.len() >= st.items.len(),
        forall|i: int| 0 <= i < st.items.len() ==> st.line(line).items[i] == #[trigger] st.items[i],
        st.encrypted ==> st.line(line).encrypted,
{
}

/// The lines that a master playlist is read from are its trimmed lines without
/// the empty ones.
pub proof fn empty_lines_do_not_matter(list: Seq<Seq<char>>)
    ensures
        filled_lines(list) == list.map_values(|line: Seq<char>| text::trim(line)).filter(
            |line: Seq<char>| line.len() > 0,
        ),
    decreases list.len(),
{
    reveal(Seq::filter);
    let f = |line: Seq<char>| text::trim(line);
    let p = |line: Seq<char>| line.len() > 0;
    if list.len() > 0 {
        empty_lines_do_not_matter(list.drop_last());
        assert(list.map_values(f) =~= list.drop_last().map_values(f).push(f(list.last())));
        lemma_filter_push(list.drop_last().map_values(f), f(list.last()), p);
    } else {
        assert(list.map_values(f) =~= Seq::empty());
    }
}

/// A rendition goes with the first line behind its tag that is no tag, whole,
/// and what stands behind that line is read on; a line that announces none is
/// passed over, and a tag without such a line announces none.
pub proof fn rendition_goes_with_the_next_entry(
    attrs: Seq<char>,
    between: Seq<Seq<char>>,
    line: Seq<char>,
    rest: Seq<Seq<char>>,
)
    requires
        forall|i: int| 0 <= i < between.len() ==> is_tag(#[trigger] between[i]),
        line.len() > 0,
        line[0] != '#',
    ensures
        ({
            let tag = "#EXT-X-STREAM-INF:"@ + attrs;
            let list = entries_in(seq![tag] + between + seq![line] + rest);
            &&& list.len() == entries_in(rest).len() + 1
            &&& list[0].reference == line
            &&& list[0] == master_entry(attrs, line)
            &&& forall|i: int|
                0 <= i < entries_in(rest).len() ==> list[i + 1] == #[trigger] entries_in(rest)[i]
            &&& entries_in(seq![tag] + between) == Seq::<MasterView>::empty()
        }),
        !text::stands_at(line, "#EXT-X-STREAM-INF:"@, 0) ==> entries_in(seq![line] + rest)
            == entries_in(rest),
{
    let tag = "#EXT-X-STREAM-INF:"@ + attrs;
    assert(tag.subrange(0, "#EXT-X-STREAM-INF:"@.len() as int) =~= "#EXT-X-STREAM-INF:"@);
    assert(tag.skip("#EXT-X-STREAM-INF:"@.len() as int) =~= attrs);
    let list = seq![tag] + between + seq![line] + rest;
    assert(list[0] == tag);
    assert(list.skip(1) =~= between + (seq![line] + rest));
    lemma_from_entry(between, seq![line] + rest);
    assert((seq![line] + rest)[0] == line);
    assert((seq![line] + rest).skip(1) =~= rest);
    let open = seq![tag] + between;
    assert(open[0] == tag);
    assert(open.skip(1) =~= between + Seq::empty());
    lemma_from_entry(between, Seq::empty());
    lemma_stands(line, "#EXT-X-STREAM-INF:"@);
}

proof fn lemma_from_entry(between: Seq<Seq<char>>, rest: Seq<Seq<char>>)
    requires
        forall|i: int| 0 <= i < between.len() ==> is_tag(#[trigger] between[i]),
        rest.len() > 0 ==> !is_tag(rest[0]),
    ensures
        from_uri(between + rest) == rest,
    decreases between.len(),
{
    if between.len() > 0 {
        let b = between.skip(1);
        assert forall|i: int| 0 <= i < b.len() implies is_tag(#[trigger] b[i]) by {
            assert(b[i] == between[i + 1]);
        }
        assert((between + rest)[0] == between[0]);
        assert((between + rest).skip(1) =~= b + rest);
        lemma_from_entry(b, rest);
    } else {
        assert(between + rest =~= rest);
    }
}

/// A rendition has the bandwidth and the resolution that its tag writes in
/// decimal; a tag that writes no bandwidth stands for zero.
pub proof fn rendition_has_what_its_tag_says(
    attrs: Seq<char>,
    line: Seq<char>,
    bandwidth: nat,
    width: nat,
    height: nat,
)
    requires
        bandwidth <= u64::MAX,
        width <= u32::MAX,
        height <= u32::MAX,
    ensures
        master_entry(attrs, line).reference == line,
        markup::attr_of(markup::attrs_of(attrs), "BANDWIDTH"@) == Some(text::decimal(bandwidth))
            ==> master_entry(attrs, line).bandwidth == bandwidth,
        markup::attr_of(markup::attrs_of(attrs), "BANDWIDTH"@) is None ==> master_entry(
            attrs,
            line,
        ).bandwidth == 0,
        markup::attr_of(markup::attrs_of(attrs), "RESOLUTION"@) == Some(
            text::decimal(width) + seq!['x'] + text::decimal(height),
        ) ==> master_entry(attrs, line).resolution == Some((width, height)),
        markup::attr_of(markup::attrs_of(attrs), "RESOLUTION"@) is None ==> master_entry(
            attrs,
            line,
        ).resolution is None,
{
    text::decimal_reads_back(bandwidth);
    assert(text::number(text::decimal(bandwidth), u64::MAX as nat) == Some(bandwidth));
    let w = text::decimal(width);
    let h = text::decimal(height);
    let s = w + seq!['x'] + h;
    text::decimal_reads_back(width);
    text::decimal_reads_back(height);
    assert(text::number(w, u32::MAX as nat) == Some(width));
    assert(text::number(h, u32::MAX as nat) == Some(height));
    assert forall|i: int| 0 <= i < w.len() implies !CharClass::One('x').has(#[trigger] w[i]) by {
        assert('0' <= w[i] <= '9');
    }
    text::cut_at_the_first(w, 'x', h, CharClass::One('x'));
    assert(s.take(w.len() as int) =~= w);
    assert(s.skip(w.len() as int + 1) =~= h);
}

/// The renditions of a master playlist are its entries, as many and in order,
/// each with its reference resolved and the rest as it was written.
pub proof fn renditions_are_the_entries(base: Seq<char>, entries: Seq<MasterView>)
    ensures
        variants_of(base, entries) matches Ok(v) ==> {
            &&& v.len() == entries.len()
            &&& forall|i: int|
                0 <= i < v.len() ==> {
                    &&& (#[trigger] v[i]).bandwidth == entries[i].bandwidth
                    &&& v[i].resolution == entries[i].resolution
                    &&& urls::resolved(base, entries[i].reference) == Ok::<Seq<char>, ErrorView>(
                        v[i].uri,
                    )
                }
        },
        (forall|i: int|
            0 <= i < entries.len() ==> urls::resolved(
                base,
                (#[trigger] entries[i]).reference,
            ) is Ok) ==> variants_of(base, entries) is Ok,
    decreases entries.len(),
{
    if entries.len() > 0 {
        let init = entries.drop_last();
        renditions_are_the_entries(base, init);
        if forall|i: int|
            0 <= i < entries.len() ==> urls::resolved(
                base,
                (#[trigger] entries[i]).reference,
            ) is Ok {
            assert forall|i: int| 0 <= i < init.len() implies urls::resolved(
                base,
                (#[trigger] init[i]).reference,
            ) is Ok by {
                assert(init[i] == entries[i]);
            }
            assert(entries.last() == entries[entries.len() - 1]);
        }
    }
}

/// The segments that are read of a playlist are its lines that name entries, as
/// many and in that order, each line whole and resolved against the URL.
pub proof fn read_segments_are_the_entry_lines(
    base: &str,
    text: &str,
    r: Result<HlsMedia, CcdmError>,
)
    requires
        call_ensures(parse_media, (base, text), r),
    ensures
        r matches Ok(m) ==> {
            &&& m.segments@.len() == entry_lines(text@).len()
            &&& forall|k: int|
                0 <= k < m.segments@.len() ==> urls::resolved(base@, entry_lines(text@)[k]) == Ok::<
                    Seq<char>,
                    ErrorView,
                >((#[trigger] m.segments@[k]).uri@)
        },
{
    segments_are_the_entry_lines(base@, text@);
    if let Ok(m) = r {
        assert(media_of(base@, text@) == Ok::<MediaView, ErrorView>(m@));
        assert forall|k: int| 0 <= k < m.segments@.len() implies urls::resolved(
            base@,
            entry_lines(text@)[k],
        ) == Ok::<Seq<char>, ErrorView>((#[trigger] m.segments@[k]).uri@) by {
            assert(m@.segments[k].uri == m.segments@[k].uri@);
        }
    }
}

proof fn lemma_durations(base: Seq<char>, items: Seq<ItemView>)
    ensures
        media_items(base, items) matches Ok(m) ==> {
            let segments = items.filter(is_segment());
            &&& !m.encrypted
            &&& m.segments.len() == segments.len()
            &&& forall|k: int|
                0 <= k < m.segments.len() ==> (#[trigger] m.segments[k]).duration
                    == segments[k]->Segment_1
        },
    decreases items.len(),
{
    reveal(Seq::filter);
    if items.len() > 0 {
        let init = items.drop_last();
        lemma_durations(base, init);
        assert(init.push(items.last()) =~= items);
        lemma_filter_push(init, items.last(), is_segment());
        if let Ok(n) = media_items(base, items) {
            let m = media_items(base, init)->Ok_0;
            let segments = items.filter(is_segment());
            assert forall|k: int| 0 <= k < n.segments.len() implies (
            #[trigger] n.segments[k]).duration == segments[k]->Segment_1 by {
                if k < m.segments.len() {
                    assert(n.segments[k] == m.segments[k]);
                }
            }
        }
    }
}

/// Resolving a playlist changes its references alone: it is encrypted exactly
/// where it is written so, and each segment keeps the duration that is written
/// for it.
pub proof fn resolving_changes_references_alone(base: Seq<char>, text: Seq<char>, m: MediaView)
    requires
        media_of(base, text) == Ok::<MediaView, ErrorView>(m),
    ensures
        m.encrypted == media_scan(text).encrypted,
        ({
            let segments = media_scan(text).items.filter(|item: ItemView| item is Segment);
            &&& m.segments.len() == segments.len()
            &&& forall|k: int|
                0 <= k < m.segments.len() ==> (#[trigger] m.segments[k]).duration
                    == segments[k]->Segment_1
        }),
{
    lemma_durations(base, media_scan(text).items);
    let pred = |item: ItemView| item is Segment;
    assert(pred =~= is_segment());
}

/// A duration without a title is given without a comma, and is taken whole.
pub proof fn duration_needs_no_comma(st: ScanView, d: Seq<char>)
    requires
        text::free_of(d, CharClass::One(',')),
    ensures
        st.line("#EXTINF:"@ + d).pending == Some(text::trim(d)),
        st.line("#EXTINF:"@ + d).items == st.items,
{
    reveal_strlit("#EXTINF:");
    let line = "#EXTINF:"@ + d;
    assert(line.subrange(0, 8) =~= "#EXTINF:"@);
    assert(line.skip(8) =~= d);
    text::cut_at_the_first(d, ',', Seq::empty(), CharClass::One(','));
}

} // verus!
