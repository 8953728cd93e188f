//! DASH manifests (MPD): a scan of the tags into one plan per representation.
//!
//! Durations stay in the text form of the manifest.

use vstd::prelude::*;

use crate::error::{CcdmError, ErrorView};
use crate::markup::{self, attr, read_tag, Tag, TagView};
use crate::text::{
    self, chars_of, copy_list, copy_opt, list_has, parse_number, position, same_text, string_of,
    trimmed, CharClass,
};

verus! {

/// An ISO 8601 duration: the decimal number before each of its designators.
#[derive(Debug, Clone)]
pub struct IsoDuration {
    pub days: Option<String>,
    pub hours: Option<String>,
    pub minutes: Option<String>,
    pub seconds: Option<String>,
}

/// The texts of an [`IsoDuration`].
#[verifier::ext_equal]
pub struct IsoView {
    pub days: Option<Seq<char>>,
    pub hours: Option<Seq<char>>,
    pub minutes: Option<Seq<char>>,
    pub seconds: Option<Seq<char>>,
}

impl View for IsoDuration {
    type V = IsoView;

    open spec fn view(&self) -> IsoView {
        IsoView {
            days: text::opt_view(self.days),
            hours: text::opt_view(self.hours),
            minutes: text::opt_view(self.minutes),
            seconds: text::opt_view(self.seconds),
        }
    }
}

pub open spec fn iso_view(d: Option<IsoDuration>) -> Option<IsoView> {
    match d {
        Some(v) => Some(v@),
        None => None,
    }
}

/// A character of an unsigned decimal number.
pub open spec fn in_number(c: char) -> bool {
    '0' <= c <= '9' || c == '.'
}

/// The digits and dots at the end of `s`.
pub open spec fn number_tail(s: Seq<char>) -> Seq<char>
    decreases s.len(),
{
    if s.len() > 0 && in_number(s.last()) {
        number_tail(s.drop_last()).push(s.last())
    } else {
        Seq::empty()
    }
}

/// Digits and dots that make a number: at least one digit, at most one dot.
pub open spec fn is_number(s: Seq<char>) -> bool {
    &&& exists|i: int| 0 <= i < s.len() && #[trigger] s[i] != '.'
    &&& forall|i: int, j: int| 0 <= i < j < s.len() ==> !(#[trigger] s[i] == '.' && #[trigger] s[j] == '.')
}

/// The number directly before the first `suffix` in `s`.
pub open spec fn number_before(s: Seq<char>, suffix: char) -> Option<Seq<char>> {
    let i = text::index_of(s, CharClass::One(suffix)) as int;
    let t = number_tail(s.take(i));
    if i < s.len() && is_number(t) {
        Some(t)
    } else {
        None
    }
}

/// Number directly before `suffix` (`"2M30S"` + `'M'` gives `"2"`).
pub fn parse_num_suffix(s: &[char], suffix: char) -> (r: Option<String>)
    ensures
        text::opt_view(r) == number_before(s@, suffix),
{
    let i = position(s, CharClass::One(suffix));
    if i >= s.len() {
        return None;
    }
    let mut k: usize = i;
    let mut dots: usize = 0;
    let ghost head = s@.take(i as int);
    assert(head.take(i as int) == head);
    assert(s@.subrange(i as int, i as int) =~= Seq::<char>::empty());
    assert(number_tail(head) =~= number_tail(head) + Seq::<char>::empty());
    while k > 0 && (s[k - 1] == '.' || (s[k - 1] >= '0' && s[k - 1] <= '9'))
        invariant
            k <= i < s.len(),
            head == s@.take(i as int),
            number_tail(head) == number_tail(head.take(k as int)) + s@.subrange(k as int, i as int),
            dots <= i - k,
            dots == 0 ==> forall|a: int| k <= a < i ==> #[trigger] s@[a] != '.',
            dots == 1 ==> exists|p: int|
                k <= p < i && #[trigger] s@[p] == '.' && forall|a: int|
                    k <= a < i && a != p ==> #[trigger] s@[a] != '.',
            dots > 1 ==> exists|a: int, b: int|
                k <= a < b < i && #[trigger] s@[a] == '.' && #[trigger] s@[b] == '.',
        decreases k,
    {
        let ghost kk = k as int;
        let ghost old_dots = dots;
        assert(head.take(kk).last() == s@[kk - 1]);
        assert(head.take(kk).drop_last() == head.take(kk - 1));
        assert(number_tail(head.take(kk - 1)).push(s@[kk - 1]) + s@.subrange(kk, i as int)
            =~= number_tail(head.take(kk - 1)) + s@.subrange(kk - 1, i as int));
        if s[k - 1] == '.' {
            dots = dots + 1;
            proof {
                if old_dots == 0 {
                    assert(s@[kk - 1] == '.');
                } else if old_dots == 1 {
                    let p = choose|p: int|
                        kk <= p < i && #[trigger] s@[p] == '.' && forall|a: int|
                            kk <= a < i && a != p ==> #[trigger] s@[a] != '.';
                    assert(s@[kk - 1] == '.' && s@[p] == '.');
                }
            }
        }
        k = k - 1;
    }
    let t = &s[k..i];
    assert(number_tail(head.take(k as int)) =~= Seq::<char>::empty());
    assert(number_tail(head) =~= t@);
    if dots >= 2 || dots == i - k {
        proof {
            if is_number(t@) {
                if dots >= 2 {
                    let (a, b) = choose|a: int, b: int|
                        k <= a < b < i && #[trigger] s@[a] == '.' && #[trigger] s@[b] == '.';
                    assert(t@[a - k] == '.' && t@[b - k] == '.');
                } else {
                    let q = choose|q: int| 0 <= q < t@.len() && #[trigger] t@[q] != '.';
                    assert(t@[q] == s@[q + k]);
                }
            }
        }
        return None;
    }
    proof {
        assert forall|x: int, y: int| 0 <= x < y < t@.len() implies !(#[trigger] t@[x] == '.'
            && #[trigger] t@[y] == '.') by {
            assert(t@[x] == s@[x + k]);
            assert(t@[y] == s@[y + k]);
        }
        if dots == 0 {
            assert(t@[0] == s@[k as int]);
        } else {
            let p = choose|p: int|
                k <= p < i && #[trigger] s@[p] == '.' && forall|a: int|
                    k <= a < i && a != p ==> #[trigger] s@[a] != '.';
            let q = if p == k {
                k + 1
            } else {
                k as int
            };
            assert(t@[q - k] == s@[q]);
        }
    }
    Some(string_of(t))
}

/// The duration written as `value`: `P`, a date part, and a time part after
/// a `T`, not both of them empty.
pub open spec fn iso_duration(value: Seq<char>) -> Option<IsoView> {
    let v = text::trim(value);
    let rest = v.skip(1);
    let i = text::index_of(rest, CharClass::Either('T', 't')) as int;
    let date = rest.take(i);
    let time = if i < rest.len() {
        rest.skip(i + 1)
    } else {
        Seq::empty()
    };
    if v.len() == 0 || !(v[0] == 'P' || v[0] == 'p') || (date.len() == 0 && time.len() == 0) {
        None
    } else {
        Some(
            IsoView {
                days: number_before(date, 'D'),
                hours: number_before(time, 'H'),
                minutes: number_before(time, 'M'),
                seconds: number_before(time, 'S'),
            },
        )
    }
}

/// Reads `PT1H2M3.5S` (and `P1DT2H`).
pub fn parse_iso8601(value: &str) -> (r: Option<IsoDuration>)
    ensures
        iso_view(r) == iso_duration(value@),
{
    let all = chars_of(value);
    let v = trimmed(all.as_slice());
    if v.len() == 0 || !(v[0] == 'P' || v[0] == 'p') {
        return None;
    }
    let rest = &v[1..v.len()];
    let i = position(rest, CharClass::Either('T', 't'));
    let date = &rest[0..i];
    let time = if i < rest.len() {
        &rest[i + 1..rest.len()]
    } else {
        &rest[i..i]
    };
    assert(i >= rest@.len() ==> time@ =~= Seq::<char>::empty());
    if date.len() == 0 && time.len() == 0 {
        return None;
    }
    Some(
        IsoDuration {
            days: parse_num_suffix(date, 'D'),
            hours: parse_num_suffix(time, 'H'),
            minutes: parse_num_suffix(time, 'M'),
            seconds: parse_num_suffix(time, 'S'),
        },
    )
}

/// A `SegmentTemplate`.
#[derive(Debug, Clone)]
pub struct SegTpl {
    pub media: Option<String>,
    pub initialization: Option<String>,
    pub timescale: u64,
    pub duration: Option<String>,
    pub start_number: u64,
}

/// The texts and numbers of a [`SegTpl`].
#[verifier::ext_equal]
pub struct TplView {
    pub media: Option<Seq<char>>,
    pub initialization: Option<Seq<char>>,
    pub timescale: nat,
    pub duration: Option<Seq<char>>,
    pub start_number: nat,
}

impl View for SegTpl {
    type V = TplView;

    open spec fn view(&self) -> TplView {
        TplView {
            media: text::opt_view(self.media),
            initialization: text::opt_view(self.initialization),
            timescale: self.timescale as nat,
            duration: text::opt_view(self.duration),
            start_number: self.start_number as nat,
        }
    }
}

pub open spec fn tpl_view(t: Option<SegTpl>) -> Option<TplView> {
    match t {
        Some(v) => Some(v@),
        None => None,
    }
}

/// What a `Representation` says of itself.
#[derive(Debug, Clone)]
pub struct RepCtx {
    pub id: String,
    pub bandwidth: u64,
    pub mime: Option<String>,
    pub base: Option<String>,
    pub tpl: Option<SegTpl>,
    pub seg_urls: Vec<String>,
    pub init: Option<String>,
}

/// The texts and numbers of a [`RepCtx`].
#[verifier::ext_equal]
pub struct RepView {
    pub id: Seq<char>,
    pub bandwidth: nat,
    pub mime: Option<Seq<char>>,
    pub base: Option<Seq<char>>,
    pub tpl: Option<TplView>,
    pub seg_urls: Seq<Seq<char>>,
    pub init: Option<Seq<char>>,
}

impl View for RepCtx {
    type V = RepView;

    open spec fn view(&self) -> RepView {
        RepView {
            id: self.id@,
            bandwidth: self.bandwidth as nat,
            mime: text::opt_view(self.mime),
            base: text::opt_view(self.base),
            tpl: tpl_view(self.tpl),
            seg_urls: text::views(self.seg_urls@),
            init: text::opt_view(self.init),
        }
    }
}

pub open spec fn rep_view(r: Option<RepCtx>) -> Option<RepView> {
    match r {
        Some(v) => Some(v@),
        None => None,
    }
}

/// A representation with all that it inherits: what its stream is built of.
#[derive(Debug, Clone)]
pub struct RepPlan {
    /// Nothing that says what to fetch: no id, bandwidth, base, template or
    /// segment list of its own.
    pub blank: bool,
    pub id: String,
    pub bandwidth: u64,
    pub mime: Option<String>,
    /// The `BaseURL`s from the manifest down to the representation.
    pub bases: Vec<String>,
    pub tpl: Option<SegTpl>,
    pub seg_urls: Vec<String>,
    pub init: Option<String>,
    /// Duration of the period, or else of the presentation.
    pub total: Option<IsoDuration>,
}

/// The texts and numbers of a [`RepPlan`].
#[verifier::ext_equal]
pub struct PlanView {
    pub blank: bool,
    pub id: Seq<char>,
    pub bandwidth: nat,
    pub mime: Option<Seq<char>>,
    pub bases: Seq<Seq<char>>,
    pub tpl: Option<TplView>,
    pub seg_urls: Seq<Seq<char>>,
    pub init: Option<Seq<char>>,
    pub total: Option<IsoView>,
}

impl View for RepPlan {
    type V = PlanView;

    open spec fn view(&self) -> PlanView {
        PlanView {
            blank: self.blank,
            id: self.id@,
            bandwidth: self.bandwidth as nat,
            mime: text::opt_view(self.mime),
            bases: text::views(self.bases@),
            tpl: tpl_view(self.tpl),
            seg_urls: text::views(self.seg_urls@),
            init: text::opt_view(self.init),
            total: iso_view(self.total),
        }
    }
}

pub open spec fn plans_view(v: Seq<RepPlan>) -> Seq<PlanView> {
    Seq::new(v.len(), |i: int| v[i]@)
}

/// Where a scan of a manifest stands.
#[derive(Debug)]
pub struct Scanner {
    stack: Vec<String>,
    mpd_base: Option<String>,
    mpd_dur: Option<IsoDuration>,
    period_base: Option<String>,
    period_dur: Option<IsoDuration>,
    as_mime: Option<String>,
    as_base: Option<String>,
    as_tpl: Option<SegTpl>,
    as_seg_urls: Vec<String>,
    as_init: Option<String>,
    rep: Option<RepCtx>,
    in_seglist: bool,
    base_capture: bool,
    plans: Vec<RepPlan>,
}

/// The state of a scan: the open elements, what each level has said so far,
/// and the representations that are complete.
#[verifier::ext_equal]
pub struct ScanView {
    pub stack: Seq<Seq<char>>,
    pub mpd_base: Option<Seq<char>>,
    pub mpd_dur: Option<IsoView>,
    pub period_base: Option<Seq<char>>,
    pub period_dur: Option<IsoView>,
    pub as_mime: Option<Seq<char>>,
    pub as_base: Option<Seq<char>>,
    pub as_tpl: Option<TplView>,
    pub as_seg_urls: Seq<Seq<char>>,
    pub as_init: Option<Seq<char>>,
    pub rep: Option<RepView>,
    pub in_seglist: bool,
    pub base_capture: bool,
    pub plans: Seq<PlanView>,
}

impl View for Scanner {
    type V = ScanView;

    closed spec fn view(&self) -> ScanView {
        ScanView {
            stack: text::views(self.stack@),
            mpd_base: text::opt_view(self.mpd_base),
            mpd_dur: iso_view(self.mpd_dur),
            period_base: text::opt_view(self.period_base),
            period_dur: iso_view(self.period_dur),
            as_mime: text::opt_view(self.as_mime),
            as_base: text::opt_view(self.as_base),
            as_tpl: tpl_view(self.as_tpl),
            as_seg_urls: text::views(self.as_seg_urls@),
            as_init: text::opt_view(self.as_init),
            rep: rep_view(self.rep),
            in_seglist: self.in_seglist,
            base_capture: self.base_capture,
            plans: plans_view(self.plans@),
        }
    }
}

/// The texts that are there, in order.
pub open spec fn present(list: Seq<Option<Seq<char>>>) -> Seq<Seq<char>>
    decreases list.len(),
{
    if list.len() == 0 {
        Seq::empty()
    } else {
        let head = present(list.drop_last());
        match list.last() {
            Some(s) => head.push(s),
            None => head,
        }
    }
}

/// The first of the two that is there.
pub open spec fn first_of<T>(a: Option<T>, b: Option<T>) -> Option<T> {
    if a is Some {
        a
    } else {
        b
    }
}

impl ScanView {
    /// A scan that has read nothing.
    pub open spec fn start() -> ScanView {
        ScanView {
            stack: Seq::empty(),
            mpd_base: None,
            mpd_dur: None,
            period_base: None,
            period_dur: None,
            as_mime: None,
            as_base: None,
            as_tpl: None,
            as_seg_urls: Seq::empty(),
            as_init: None,
            rep: None,
            in_seglist: false,
            base_capture: false,
            plans: Seq::empty(),
        }
    }

    /// Text between two tags: the first one after an opened `BaseURL` is the
    /// base of the innermost level that is open.
    pub open spec fn node(self, text: Seq<char>) -> ScanView {
        if !self.base_capture || text.len() == 0 {
            self
        } else {
            let done = ScanView { base_capture: false, ..self };
            if self.stack.contains("Representation"@) {
                match self.rep {
                    Some(r) => ScanView { rep: Some(RepView { base: Some(text), ..r }), ..done },
                    None => done,
                }
            } else if self.stack.contains("AdaptationSet"@) {
                ScanView { as_base: Some(text), ..done }
            } else if self.stack.contains("Period"@) {
                ScanView { period_base: Some(text), ..done }
            } else {
                ScanView { mpd_base: Some(text), ..done }
            }
        }
    }

    /// A representation with all that it inherits at this point.
    pub open spec fn plan(self, r: RepView) -> PlanView {
        PlanView {
            blank: r.id.len() == 0 && r.bandwidth == 0 && r.base is None && r.tpl is None
                && r.seg_urls.len() == 0,
            id: r.id,
            bandwidth: r.bandwidth,
            mime: first_of(r.mime, self.as_mime),
            bases: present(seq![self.mpd_base, self.period_base, self.as_base, r.base]),
            tpl: first_of(r.tpl, self.as_tpl),
            seg_urls: if r.seg_urls.len() == 0 {
                self.as_seg_urls
            } else {
                r.seg_urls
            },
            init: first_of(r.init, self.as_init),
            total: first_of(self.period_dur, self.mpd_dur),
        }
    }

    /// The representation `r` is complete.
    pub open spec fn complete(self, r: RepView) -> ScanView {
        ScanView { plans: self.plans.push(self.plan(r)), ..self }
    }

    /// The open representation, if any, is complete.
    pub open spec fn finish_open(self) -> ScanView {
        match self.rep {
            Some(r) => ScanView { rep: None, ..self }.complete(r),
            None => self,
        }
    }

    /// No adaptation set has said anything.
    pub open spec fn fresh_set(self, mime: Option<Seq<char>>) -> ScanView {
        ScanView {
            as_mime: mime,
            as_base: None,
            as_tpl: None,
            as_seg_urls: Seq::empty(),
            as_init: None,
            in_seglist: false,
            ..self
        }
    }

    /// The element `name` is open.
    pub open spec fn enter(self, name: Seq<char>) -> ScanView {
        ScanView { stack: self.stack.push(name), ..self }
    }

    /// The element of the tag is open, unless the tag closes itself.
    pub open spec fn enter_unless_closed(self, tag: TagView) -> ScanView {
        if tag.self_closing {
            self
        } else {
            self.enter(tag.name)
        }
    }

    /// A closing tag.
    pub open spec fn close(self, name: Seq<char>) -> ScanView {
        let after = if name == "Representation"@ {
            self.finish_open()
        } else if name == "AdaptationSet"@ {
            self.fresh_set(None)
        } else if name == "Period"@ {
            ScanView { period_base: None, period_dur: None, ..self }
        } else if name == "SegmentList"@ {
            ScanView { in_seglist: false, ..self }
        } else if name == "BaseURL"@ {
            ScanView { base_capture: false, ..self }
        } else {
            self
        };
        if after.stack.len() > 0 && after.stack.last() == name {
            ScanView { stack: after.stack.drop_last(), ..after }
        } else {
            after
        }
    }

    /// A `SegmentTemplate` for the open representation, or else for the set.
    pub open spec fn template(self, tpl: TplView) -> ScanView {
        if self.stack.contains("Representation"@) {
            match self.rep {
                Some(r) => ScanView { rep: Some(RepView { tpl: Some(tpl), ..r }), ..self },
                None => self,
            }
        } else {
            ScanView { as_tpl: Some(tpl), ..self }
        }
    }

    /// A `SegmentURL`: it counts inside a `SegmentList` only.
    pub open spec fn segment_url(self, media: Option<Seq<char>>) -> ScanView {
        match media {
            Some(url) if self.in_seglist => match self.rep {
                Some(r) => ScanView {
                    rep: Some(RepView { seg_urls: r.seg_urls.push(url), ..r }),
                    ..self
                },
                None => ScanView { as_seg_urls: self.as_seg_urls.push(url), ..self },
            },
            _ => self,
        }
    }

    /// An `Initialization` with a source URL.
    pub open spec fn initialization(self, source: Option<Seq<char>>) -> ScanView {
        match source {
            Some(url) => match self.rep {
                Some(r) => ScanView { rep: Some(RepView { init: Some(url), ..r }), ..self },
                None => if self.in_seglist {
                    ScanView { as_init: Some(url), ..self }
                } else {
                    self
                },
            },
            None => self,
        }
    }

    /// An opening tag; nothing follows a live manifest.
    pub open spec fn open(self, tag: TagView) -> Result<ScanView, ErrorView> {
        let name = tag.name;
        if name == "MPD"@ {
            if markup::attr_of(tag.attrs, "type"@) == Some("dynamic"@) {
                Err(ErrorView::Unsupported("live/dynamic DASH (MPD@type=dynamic)"@))
            } else {
                let dur = iso_of(markup::attr_of(tag.attrs, "mediaPresentationDuration"@));
                Ok(ScanView { mpd_dur: first_of(dur, self.mpd_dur), ..self }.enter(name))
            }
        } else if name == "Period"@ {
            let dur = iso_of(markup::attr_of(tag.attrs, "duration"@));
            Ok(ScanView { period_dur: dur, period_base: None, ..self }.enter(name))
        } else if name == "AdaptationSet"@ {
            Ok(self.fresh_set(markup::attr_of(tag.attrs, "mimeType"@)).enter(name))
        } else if name == "Representation"@ {
            let r = rep_of(tag);
            if tag.self_closing {
                Ok(self.complete(r))
            } else {
                Ok(ScanView { rep: Some(r), ..self }.enter(name))
            }
        } else if name == "SegmentTemplate"@ {
            Ok(self.template(tpl_of(tag)).enter_unless_closed(tag))
        } else if name == "SegmentList"@ {
            Ok(ScanView { in_seglist: true, ..self }.enter_unless_closed(tag))
        } else if name == "SegmentURL"@ {
            Ok(self.segment_url(markup::attr_of(tag.attrs, "media"@)).enter_unless_closed(tag))
        } else if name == "Initialization"@ {
            Ok(self.initialization(markup::attr_of(tag.attrs, "sourceURL"@)).enter_unless_closed(tag))
        } else if name == "BaseURL"@ {
            Ok(ScanView { base_capture: !tag.self_closing, ..self }.enter_unless_closed(tag))
        } else {
            Ok(self.enter_unless_closed(tag))
        }
    }
}

/// The duration that an attribute holds, when it holds one.
pub open spec fn iso_of(value: Option<Seq<char>>) -> Option<IsoView> {
    match value {
        Some(v) => iso_duration(v),
        None => None,
    }
}

/// The number that an attribute holds, or `default`.
pub open spec fn number_or(value: Option<Seq<char>>, default: nat) -> nat {
    match value {
        Some(v) => match text::number(v, u64::MAX as nat) {
            Some(n) => n,
            None => default,
        },
        None => default,
    }
}

/// What a `Representation` tag says.
pub open spec fn rep_of(tag: TagView) -> RepView {
    RepView {
        id: match markup::attr_of(tag.attrs, "id"@) {
            Some(v) => v,
            None => Seq::empty(),
        },
        bandwidth: number_or(markup::attr_of(tag.attrs, "bandwidth"@), 0),
        mime: markup::attr_of(tag.attrs, "mimeType"@),
        base: None,
        tpl: None,
        seg_urls: Seq::empty(),
        init: None,
    }
}

/// What a `SegmentTemplate` tag says.
pub open spec fn tpl_of(tag: TagView) -> TplView {
    TplView {
        media: markup::attr_of(tag.attrs, "media"@),
        initialization: markup::attr_of(tag.attrs, "initialization"@),
        timescale: number_or(markup::attr_of(tag.attrs, "timescale"@), 1),
        duration: markup::attr_of(tag.attrs, "duration"@),
        start_number: number_or(markup::attr_of(tag.attrs, "startNumber"@), 1),
    }
}

fn iso_attr(tag: &Tag, key: &str) -> (r: Option<IsoDuration>)
    ensures
        iso_view(r) == iso_of(markup::attr_of(tag@.attrs, key@)),
{
    match attr(&tag.attrs, key) {
        Some(v) => parse_iso8601(v.as_str()),
        None => None,
    }
}

fn number_attr(tag: &Tag, key: &str, default: u64) -> (r: u64)
    ensures
        r == number_or(markup::attr_of(tag@.attrs, key@), default as nat),
{
    match attr(&tag.attrs, key) {
        Some(v) => match parse_number(chars_of(v.as_str()).as_slice(), u64::MAX) {
            Some(n) => n,
            None => default,
        },
        None => default,
    }
}

fn rep_from(tag: &Tag) -> (r: RepCtx)
    ensures
        r@ == rep_of(tag@),
{
    let r = RepCtx {
        id: match attr(&tag.attrs, "id") {
            Some(v) => v,
            None => String::new(),
        },
        bandwidth: number_attr(tag, "bandwidth", 0),
        mime: attr(&tag.attrs, "mimeType"),
        base: None,
        tpl: None,
        seg_urls: Vec::new(),
        init: None,
    };
    assert(r@ =~= rep_of(tag@));
    r
}

fn tpl_from(tag: &Tag) -> (r: SegTpl)
    ensures
        r@ == tpl_of(tag@),
{
    SegTpl {
        media: attr(&tag.attrs, "media"),
        initialization: attr(&tag.attrs, "initialization"),
        timescale: number_attr(tag, "timescale", 1),
        duration: attr(&tag.attrs, "duration"),
        start_number: number_attr(tag, "startNumber", 1),
    }
}

fn copy_iso(d: &Option<IsoDuration>) -> (r: Option<IsoDuration>)
    ensures
        iso_view(r) == iso_view(*d),
{
    match d {
        Some(v) => Some(
            IsoDuration {
                days: copy_opt(&v.days),
                hours: copy_opt(&v.hours),
                minutes: copy_opt(&v.minutes),
                seconds: copy_opt(&v.seconds),
            },
        ),
        None => None,
    }
}

fn copy_tpl(t: &Option<SegTpl>) -> (r: Option<SegTpl>)
    ensures
        tpl_view(r) == tpl_view(*t),
{
    match t {
        Some(v) => Some(
            SegTpl {
                media: copy_opt(&v.media),
                initialization: copy_opt(&v.initialization),
                timescale: v.timescale,
                duration: copy_opt(&v.duration),
                start_number: v.start_number,
            },
        ),
        None => None,
    }
}

fn push_present(list: &mut Vec<String>, s: &Option<String>)
    ensures
        text::views(final(list)@) == (match *s {
            Some(v) => text::views(old(list)@).push(v@),
            None => text::views(old(list)@),
        }),
{
    match s {
        Some(v) => {
            list.push(v.clone());
            assert(text::views(list@) =~= text::views(old(list)@).push(v@));
        },
        None => {},
    }
}

impl Scanner {
    /// A scan that has read nothing.
    pub fn new() -> (r: Scanner)
        ensures
            r@ == ScanView::start(),
    {
        let r = Scanner {
            stack: Vec::new(),
            mpd_base: None,
            mpd_dur: None,
            period_base: None,
            period_dur: None,
            as_mime: None,
            as_base: None,
            as_tpl: None,
            as_seg_urls: Vec::new(),
            as_init: None,
            rep: None,
            in_seglist: false,
            base_capture: false,
            plans: Vec::new(),
        };
        assert(r@ =~= ScanView::start());
        r
    }

    fn node(&mut self, text: &[char])
        ensures
            final(self)@ == old(self)@.node(text@),
    {
        if !self.base_capture || text.len() == 0 {
            return ;
        }
        self.base_capture = false;
        let value = string_of(text);
        if list_has(&self.stack, "Representation") {
            match self.rep.as_mut() {
                Some(r) => {
                    r.base = Some(value);
                },
                None => {},
            }
        } else if list_has(&self.stack, "AdaptationSet") {
            self.as_base = Some(value);
        } else if list_has(&self.stack, "Period") {
            self.period_base = Some(value);
        } else {
            self.mpd_base = Some(value);
        }
    }

    fn plan(&self, r: RepCtx) -> (p: RepPlan)
        ensures
            p@ == self@.plan(r@),
    {
        let blank = r.id.as_str().is_empty() && r.bandwidth == 0 && r.base.is_none() && r.tpl.is_none()
            && r.seg_urls.is_empty();
        let mut bases: Vec<String> = Vec::new();
        assert(text::views(bases@) =~= Seq::empty());
        push_present(&mut bases, &self.mpd_base);
        push_present(&mut bases, &self.period_base);
        push_present(&mut bases, &self.as_base);
        push_present(&mut bases, &r.base);
        let ghost list = seq![
            text::opt_view(self.mpd_base),
            text::opt_view(self.period_base),
            text::opt_view(self.as_base),
            text::opt_view(r.base),
        ];
        assert(text::views(bases@) == present(list)) by {
            reveal_with_fuel(present, 5);
            assert(list.drop_last() =~= list.take(3));
            assert(list.take(3).drop_last() =~= list.take(2));
            assert(list.take(2).drop_last() =~= list.take(1));
            assert(list.take(1).drop_last() =~= list.take(0));
        }
        let ghost rv = r@;
        let seg_urls = if r.seg_urls.is_empty() {
            copy_list(&self.as_seg_urls)
        } else {
            r.seg_urls
        };
        let mime = if r.mime.is_some() {
            r.mime
        } else {
            copy_opt(&self.as_mime)
        };
        let tpl = if r.tpl.is_some() {
            r.tpl
        } else {
            copy_tpl(&self.as_tpl)
        };
        let init = if r.init.is_some() {
            r.init
        } else {
            copy_opt(&self.as_init)
        };
        let total = if self.period_dur.is_some() {
            copy_iso(&self.period_dur)
        } else {
            copy_iso(&self.mpd_dur)
        };
        RepPlan { blank, id: r.id, bandwidth: r.bandwidth, mime, bases, tpl, seg_urls, init, total }
    }

    fn complete(&mut self, r: RepCtx)
        ensures
            final(self)@ == old(self)@.complete(r@),
    {
        let p = self.plan(r);
        self.plans.push(p);
        assert(plans_view(self.plans@) =~= plans_view(old(self).plans@).push(p@));
    }

    fn finish_open(&mut self)
        ensures
            final(self)@ == old(self)@.finish_open(),
    {
        let rep = self.rep.take();
        match rep {
            Some(r) => self.complete(r),
            None => {},
        }
    }

    fn fresh_set(&mut self, mime: Option<String>)
        ensures
            final(self)@ == old(self)@.fresh_set(text::opt_view(mime)),
    {
        self.as_mime = mime;
        self.as_base = None;
        self.as_tpl = None;
        self.as_seg_urls = Vec::new();
        self.as_init = None;
        self.in_seglist = false;
        assert(text::views(self.as_seg_urls@) =~= Seq::empty());
    }

    fn enter(&mut self, name: String)
        ensures
            final(self)@ == old(self)@.enter(name@),
    {
        self.stack.push(name);
        assert(text::views(self.stack@) =~= text::views(old(self).stack@).push(name@));
    }

    fn enter_unless_closed(&mut self, tag: Tag)
        ensures
            final(self)@ == old(self)@.enter_unless_closed(tag@),
    {
        if !tag.self_closing {
            self.enter(tag.name);
        }
    }

    fn close(&mut self, name: String)
        ensures
            final(self)@ == old(self)@.close(name@),
    {
        let n = name.as_str();
        if same_text(n, "Representation") {
            self.finish_open();
        } else if same_text(n, "AdaptationSet") {
            self.fresh_set(None);
        } else if same_text(n, "Period") {
            self.period_base = None;
            self.period_dur = None;
        } else if same_text(n, "SegmentList") {
            self.in_seglist = false;
        } else if same_text(n, "BaseURL") {
            self.base_capture = false;
        }
        let ghost after = self@;
        let len = self.stack.len();
        if len > 0 && same_text(self.stack[len - 1].as_str(), n) {
            assert(after.stack.last() == self.stack@[len - 1]@);
            let ghost before = self.stack@;
            self.stack.pop();
            assert(text::views(self.stack@) =~= text::views(before).drop_last());
            assert(self@ =~= ScanView { stack: after.stack.drop_last(), ..after });
        }
    }

    fn template(&mut self, tpl: SegTpl)
        ensures
            final(self)@ == old(self)@.template(tpl@),
    {
        if list_has(&self.stack, "Representation") {
            match self.rep.as_mut() {
                Some(r) => {
                    r.tpl = Some(tpl);
                },
                None => {},
            }
        } else {
            self.as_tpl = Some(tpl);
        }
    }

    fn segment_url(&mut self, media: Option<String>)
        ensures
            final(self)@ == old(self)@.segment_url(text::opt_view(media)),
    {
        if !self.in_seglist {
            return ;
        }
        match media {
            Some(url) => match self.rep.take() {
                Some(r) => {
                    let mut rep = r;
                    let ghost before = rep.seg_urls@;
                    rep.seg_urls.push(url);
                    assert(text::views(rep.seg_urls@) =~= text::views(before).push(url@));
                    self.rep = Some(rep);
                },
                None => {
                    let ghost before = self.as_seg_urls@;
                    self.as_seg_urls.push(url);
                    assert(text::views(self.as_seg_urls@) =~= text::views(before).push(url@));
                },
            },
            None => {},
        }
    }

    fn initialization(&mut self, source: Option<String>)
        ensures
            final(self)@ == old(self)@.initialization(text::opt_view(source)),
    {
        match source {
            Some(url) => match self.rep.as_mut() {
                Some(r) => {
                    r.init = Some(url);
                },
                None => {
                    if self.in_seglist {
                        self.as_init = Some(url);
                    }
                },
            },
            None => {},
        }
    }

    fn open(&mut self, tag: Tag) -> (r: Result<(), CcdmError>)
        ensures
            match old(self)@.open(tag@) {
                Ok(s) => r is Ok && final(self)@ == s,
                Err(e) => r is Err && r->Err_0@ == e && final(self)@ == old(self)@,
            },
    {
        let name = tag.name.as_str();
        if same_text(name, "MPD") {
            let live = match attr(&tag.attrs, "type") {
                Some(v) => same_text(v.as_str(), "dynamic"),
                None => false,
            };
            if live {
                return Err(
                    CcdmError::Unsupported("live/dynamic DASH (MPD@type=dynamic)".to_string()),
                );
            }
            let dur = iso_attr(&tag, "mediaPresentationDuration");
            if dur.is_some() {
                self.mpd_dur = dur;
            }
            self.enter(tag.name);
        } else if same_text(name, "Period") {
            self.period_dur = iso_attr(&tag, "duration");
            self.period_base = None;
            self.enter(tag.name);
        } else if same_text(name, "AdaptationSet") {
            self.fresh_set(attr(&tag.attrs, "mimeType"));
            self.enter(tag.name);
        } else if same_text(name, "Representation") {
            let rep = rep_from(&tag);
            if tag.self_closing {
                self.complete(rep);
            } else {
                self.rep = Some(rep);
                self.enter(tag.name);
            }
        } else if same_text(name, "SegmentTemplate") {
            self.template(tpl_from(&tag));
            self.enter_unless_closed(tag);
        } else if same_text(name, "SegmentList") {
            self.in_seglist = true;
            self.enter_unless_closed(tag);
        } else if same_text(name, "SegmentURL") {
            self.segment_url(attr(&tag.attrs, "media"));
            self.enter_unless_closed(tag);
        } else if same_text(name, "Initialization") {
            self.initialization(attr(&tag.attrs, "sourceURL"));
            self.enter_unless_closed(tag);
        } else if same_text(name, "BaseURL") {
            self.base_capture = !tag.self_closing;
            self.enter_unless_closed(tag);
        } else {
            self.enter_unless_closed(tag);
        }
        Ok(())
    }
}

/// What was read of a manifest: the representations that were complete when
/// the scan ended, and why it ended early, if it did.
#[derive(Debug)]
pub struct MpdScan {
    pub plans: Vec<RepPlan>,
    pub failure: Option<CcdmError>,
}

pub open spec fn error_view(e: Option<CcdmError>) -> Option<ErrorView> {
    match e {
        Some(v) => Some(v@),
        None => None,
    }
}

/// What stands at the beginning of a text ends inside it.
pub proof fn lemma_tag_at(s: Seq<char>)
    requires
        s.len() > 0,
    ensures
        markup::tag_at(s) matches Some((_, n)) ==> 0 < n <= s.len(),
{
    reveal_strlit("-->");
    text::lemma_find(s, "-->"@);
    markup::lemma_tag_end(s.skip(1), None);
}

/// The scan of the rest `s` of a manifest from the state `st`.
pub open spec fn scan_from(s: Seq<char>, st: ScanView) -> (ScanView, Option<ErrorView>)
    decreases s.len(),
{
    let i = text::index_of(s, CharClass::One('<')) as int;
    if i >= s.len() {
        (st, None)
    } else {
        let here = st.node(text::trim(s.take(i)));
        proof {
            lemma_tag_at(s.skip(i));
        }
        match markup::tag_at(s.skip(i)) {
            None => (here, Some(ErrorView::Other("malformed MPD manifest"@))),
            Some((None, n)) => scan_from(s.skip(i + n), here),
            Some((Some(tag), n)) => if tag.closing {
                scan_from(s.skip(i + n), here.close(tag.name))
            } else {
                match here.open(tag) {
                    Err(e) => (here, Some(e)),
                    Ok(next) => scan_from(s.skip(i + n), next),
                }
            },
        }
    }
}

/// A live manifest is refused, wherever in the text its tag stands and whatever
/// was read before.
pub proof fn live_manifest_is_refused(s: Seq<char>, st: ScanView, tag: TagView, n: int)
    requires
        text::index_of(s, CharClass::One('<')) < s.len(),
        markup::tag_at(s.skip(text::index_of(s, CharClass::One('<')) as int)) == Some(
            (Some(tag), n),
        ),
        !tag.closing,
        tag.name == "MPD"@,
        markup::attr_of(tag.attrs, "type"@) == Some("dynamic"@),
    ensures
        scan_from(s, st).1 == Some(
            ErrorView::Unsupported("live/dynamic DASH (MPD@type=dynamic)"@),
        ),
{
}

/// The scan of a whole manifest; a representation that the manifest never
/// closed is complete at its end.
pub open spec fn scanned(text: Seq<char>) -> (Seq<PlanView>, Option<ErrorView>) {
    let (st, failure) = scan_from(text, ScanView::start());
    if failure is Some {
        (st.plans, failure)
    } else {
        (st.finish_open().plans, None)
    }
}

/// Scan an MPD manifest: `SegmentTemplate`, `SegmentList` and `BaseURL`
/// chaining. Live/dynamic manifests are refused.
pub fn scan_mpd(text: &str) -> (r: MpdScan)
    ensures
        (plans_view(r.plans@), error_view(r.failure)) == scanned(text@),
{
    let all = chars_of(text);
    let s = all.as_slice();
    let mut st = Scanner::new();
    let mut pos: usize = 0;
    assert(s@.skip(0) == s@);
    loop
        invariant
            pos <= s.len(),
            s@ == text@,
            scan_from(s@, ScanView::start()) == scan_from(s@.skip(pos as int), st@),
        decreases s.len() - pos,
    {
        let rest = &s[pos..s.len()];
        let i = position(rest, CharClass::One('<'));
        if i >= rest.len() {
            st.finish_open();
            return MpdScan { plans: st.plans, failure: None };
        }
        proof {
            text::lemma_index_of(rest@, CharClass::One('<'));
        }
        st.node(trimmed(&rest[0..i]));
        let ghost here = st@;
        let at = &rest[i..rest.len()];
        proof {
            lemma_tag_at(at@);
        }
        match read_tag(at) {
            None => {
                return MpdScan {
                    plans: st.plans,
                    failure: Some(CcdmError::Other("malformed MPD manifest".to_string())),
                };
            },
            Some((found, n)) => {
                assert(rest@.skip(i + n) == s@.skip(pos + i + n));
                pos = pos + i + n;
                match found {
                    None => {},
                    Some(tag) => {
                        if tag.closing {
                            st.close(tag.name);
                        } else {
                            match st.open(tag) {
                                Ok(_) => {},
                                Err(e) => {
                                    return MpdScan { plans: st.plans, failure: Some(e) };
                                },
                            }
                        }
                    },
                }
            },
        }
    }
}

/// A manifest is read tag by tag: the text before a tag belongs to what is open
/// there, and behind the tag the reading goes on with what the tag has changed.
/// A prolog or a declaration changes nothing. The reading ends behind the last
/// tag.
pub proof fn tags_are_read_in_order(
    a: Seq<char>,
    inner: Seq<char>,
    rest: Seq<char>,
    st: ScanView,
)
    requires
        text::free_of(a, CharClass::One('<')),
        markup::tag_end(inner + seq!['>'] + rest, None) == inner.len(),
        !text::stands_at(inner + seq!['>'] + rest, "!--"@, 0),
    ensures
        scan_from(a + seq!['<'] + inner + seq!['>'] + rest, st) == ({
            let here = st.node(text::trim(a));
            match markup::tag_of(text::trim(inner)) {
                None => scan_from(rest, here),
                Some(tag) => if tag.closing {
                    scan_from(rest, here.close(tag.name))
                } else {
                    match here.open(tag) {
                        Ok(next) => scan_from(rest, next),
                        Err(e) => (here, Some(e)),
                    }
                },
            }
        }),
        scan_from(a, st) == (st, None::<ErrorView>),
{
    let body = inner + seq!['>'] + rest;
    let s = a + seq!['<'] + inner + seq!['>'] + rest;
    assert(s =~= a + seq!['<'] + body);
    text::cut_at_the_first(a, '<', body, CharClass::One('<'));
    let at = s.skip(a.len() as int);
    assert(at[0] == '<');
    assert(at.skip(1) =~= body);
    reveal_strlit("<!--");
    reveal_strlit("!--");
    if "<!--"@.is_prefix_of(at) {
        assert forall|k: int| 0 <= k < "!--"@.len() implies body[0 + k] == #[trigger] "!--"@[k] by {
            assert(at.subrange(0, 4)[k + 1] == "<!--"@[k + 1]);
        }
    }
    assert(body.take(inner.len() as int) =~= inner);
    assert(s.take(a.len() as int) =~= a);
    assert(s.skip(a.len() as int + inner.len() as int + 2) =~= rest);
}

/// A representation gives one plan behind those before it, at its closing tag or
/// at once where its tag closes itself, with the id, the bandwidth and the MIME
/// type that its tag writes; what is open is what was open before.
pub proof fn representation_gives_one_plan(
    st: ScanView,
    tag: TagView,
    id: Seq<char>,
    bandwidth: nat,
)
    requires
        st.rep is None,
        tag.name == "Representation"@,
        !tag.closing,
        markup::attr_of(tag.attrs, "id"@) == Some(id),
        markup::attr_of(tag.attrs, "bandwidth"@) == Some(text::decimal(bandwidth)),
        bandwidth <= u64::MAX,
    ensures
        st.open(tag) is Ok,
        ({
            let opened = st.open(tag)->Ok_0;
            let done = if tag.self_closing {
                opened
            } else {
                opened.close(tag.name)
            };
            let plan = done.plans.last();
            &&& done.plans.len() == st.plans.len() + 1
            &&& forall|i: int| 0 <= i < st.plans.len() ==> done.plans[i] == #[trigger] st.plans[i]
            &&& done.stack == st.stack
            &&& done.rep is None
            &&& plan.id == id
            &&& plan.bandwidth == bandwidth
            &&& markup::attr_of(tag.attrs, "mimeType"@) matches Some(m) ==> plan.mime == Some(m)
            &&& markup::attr_of(tag.attrs, "mimeType"@) is None ==> plan.mime == st.as_mime
            &&& plan.seg_urls == st.as_seg_urls
            &&& plan.tpl == st.as_tpl
            &&& plan.init == st.as_init
            &&& id.len() > 0 ==> !plan.blank
        }),
{
    text::decimal_reads_back(bandwidth);
    assert(text::number(text::decimal(bandwidth), u64::MAX as nat) == Some(bandwidth));
    reveal_strlit("MPD");
    reveal_strlit("Period");
    reveal_strlit("AdaptationSet");
    reveal_strlit("Representation");
    assert("MPD"@.len() != "Representation"@.len());
    assert("Period"@.len() != "Representation"@.len());
    assert("AdaptationSet"@.len() != "Representation"@.len());
    let opened = st.open(tag)->Ok_0;
    if !tag.self_closing {
        assert(opened.stack.drop_last() =~= st.stack);
        assert(opened.stack.last() == tag.name);
    }
}

/// What a representation says of itself counts before what its set says; the
/// bases of all levels count, the outermost first, and the duration of the
/// period counts before that of the presentation.
pub proof fn own_values_count_first(st: ScanView, r: RepView)
    ensures
        st.plan(r).id == r.id,
        st.plan(r).bandwidth == r.bandwidth,
        r.mime is Some ==> st.plan(r).mime == r.mime,
        r.mime is None ==> st.plan(r).mime == st.as_mime,
        r.tpl is Some ==> st.plan(r).tpl == r.tpl,
        r.tpl is None ==> st.plan(r).tpl == st.as_tpl,
        r.seg_urls.len() > 0 ==> st.plan(r).seg_urls == r.seg_urls,
        r.seg_urls.len() == 0 ==> st.plan(r).seg_urls == st.as_seg_urls,
        r.init is Some ==> st.plan(r).init == r.init,
        r.init is None ==> st.plan(r).init == st.as_init,
        st.period_dur is Some ==> st.plan(r).total == st.period_dur,
        st.period_dur is None ==> st.plan(r).total == st.mpd_dur,
        st.plan(r).blank <==> r.id.len() == 0 && r.bandwidth == 0 && r.base is None && r.tpl is None
            && r.seg_urls.len() == 0,
        ({
            let levels = seq![st.mpd_base, st.period_base, st.as_base, r.base];
            st.plan(r).bases == levels.filter(|b: Option<Seq<char>>| b is Some).map_values(
                |b: Option<Seq<char>>| b->0,
            )
        }),
{
    lemma_present(seq![st.mpd_base, st.period_base, st.as_base, r.base]);
}

proof fn lemma_present(list: Seq<Option<Seq<char>>>)
    ensures
        present(list) == list.filter(|b: Option<Seq<char>>| b is Some).map_values(
            |b: Option<Seq<char>>| b->0,
        ),
    decreases list.len(),
{
    reveal(Seq::filter);
    let p = |b: Option<Seq<char>>| b is Some;
    let f = |b: Option<Seq<char>>| b->0;
    if list.len() > 0 {
        let init = list.drop_last();
        lemma_present(init);
        if let Some(s) = list.last() {
            assert(init.filter(p).push(list.last()).map_values(f) =~= init.filter(p).map_values(
                f,
            ).push(s));
        }
    } else {
        assert(list.filter(p).map_values(f) =~= Seq::empty());
    }
}

/// The text of a `BaseURL` is the base of the innermost level that is open, whole,
/// and of no other; it is taken once.
pub proof fn base_belongs_to_the_innermost_level(st: ScanView, base: Seq<char>)
    requires
        st.base_capture,
        base.len() > 0,
    ensures
        ({
            let next = st.node(base);
            let in_rep = st.stack.contains("Representation"@);
            let in_set = st.stack.contains("AdaptationSet"@);
            let in_period = st.stack.contains("Period"@);
            &&& !next.base_capture
            &&& next.plans == st.plans
            &&& next.stack == st.stack
            &&& in_rep && st.rep is Some ==> next.rep is Some && next.rep->0.base == Some(base)
                && next.as_base == st.as_base && next.period_base == st.period_base && next.mpd_base
                == st.mpd_base
            &&& !in_rep && in_set ==> next.as_base == Some(base) && next.rep == st.rep
                && next.period_base == st.period_base && next.mpd_base == st.mpd_base
            &&& !in_rep && !in_set && in_period ==> next.period_base == Some(base) && next.rep
                == st.rep && next.as_base == st.as_base && next.mpd_base == st.mpd_base
            &&& !in_rep && !in_set && !in_period ==> next.mpd_base == Some(base) && next.rep
                == st.rep && next.as_base == st.as_base && next.period_base == st.period_base
        }),
        forall|other: Seq<char>| #[trigger] st.node(base).node(other) == st.node(base),
{
}

/// The references of a segment list are kept in order, by the representation
/// that is open or else by the set; outside a list they do not count.
pub proof fn list_entries_are_kept_in_order(st: ScanView, media: Seq<char>)
    ensures
        st.in_seglist && st.rep is Some ==> {
            let next = st.segment_url(Some(media));
            &&& next.rep is Some
            &&& next.rep->0.seg_urls == st.rep->0.seg_urls.push(media)
            &&& next.rep->0.id == st.rep->0.id
            &&& next.as_seg_urls == st.as_seg_urls
        },
        st.in_seglist && st.rep is None ==> st.segment_url(Some(media)).as_seg_urls
            == st.as_seg_urls.push(media),
        !st.in_seglist ==> st.segment_url(Some(media)) == st,
        st.segment_url(None) == st,
{
}

/// A template belongs to the representation that is open, or else to its set, and
/// a set that begins or ends leaves nothing of another one behind.
pub proof fn template_belongs_to_its_level(st: ScanView, tpl: TplView, mime: Option<Seq<char>>)
    ensures
        st.stack.contains("Representation"@) && st.rep is Some ==> st.template(tpl).rep is Some
            && st.template(tpl).rep->0.tpl == Some(tpl) && st.template(tpl).as_tpl == st.as_tpl,
        !st.stack.contains("Representation"@) ==> st.template(tpl).as_tpl == Some(tpl)
            && st.template(tpl).rep == st.rep,
        st.fresh_set(mime).as_tpl is None,
        st.fresh_set(mime).as_base is None,
        st.fresh_set(mime).as_init is None,
        st.fresh_set(mime).as_seg_urls.len() == 0,
        st.fresh_set(mime).as_mime == mime,
        st.fresh_set(mime).plans == st.plans,
{
}

/// A template has what its tag writes: its references whole, its numbers in
/// decimal, and one for a number that it does not write.
pub proof fn template_has_what_its_tag_says(tag: TagView, timescale: nat, start: nat)
    requires
        timescale <= u64::MAX,
        start <= u64::MAX,
    ensures
        tpl_of(tag).media == markup::attr_of(tag.attrs, "media"@),
        tpl_of(tag).initialization == markup::attr_of(tag.attrs, "initialization"@),
        tpl_of(tag).duration == markup::attr_of(tag.attrs, "duration"@),
        markup::attr_of(tag.attrs, "timescale"@) == Some(text::decimal(timescale)) ==> tpl_of(
            tag,
        ).timescale == timescale,
        markup::attr_of(tag.attrs, "timescale"@) is None ==> tpl_of(tag).timescale == 1,
        markup::attr_of(tag.attrs, "startNumber"@) == Some(text::decimal(start)) ==> tpl_of(
            tag,
        ).start_number == start,
        markup::attr_of(tag.attrs, "startNumber"@) is None ==> tpl_of(tag).start_number == 1,
{
    text::decimal_reads_back(timescale);
    text::decimal_reads_back(start);
    assert(text::number(text::decimal(timescale), u64::MAX as nat) == Some(timescale));
    assert(text::number(text::decimal(start), u64::MAX as nat) == Some(start));
}

/// Whether every character of `s` is a digit or a dot.
pub open spec fn numeric(s: Seq<char>) -> bool {
    forall|i: int| 0 <= i < s.len() ==> '0' <= #[trigger] s[i] <= '9' || s[i] == '.'
}

proof fn lemma_number_tail(a: Seq<char>, d: Seq<char>)
    requires
        numeric(d),
        a.len() > 0 ==> !in_number(a[a.len() - 1]),
    ensures
        number_tail(a + d) == d,
    decreases d.len(),
{
    if d.len() > 0 {
        let e = d.drop_last();
        assert forall|i: int| 0 <= i < e.len() implies '0' <= #[trigger] e[i] <= '9' || e[i]
            == '.' by {
            assert(e[i] == d[i]);
        }
        lemma_number_tail(a, e);
        assert((a + d).last() == d[d.len() - 1]);
        assert((a + d).drop_last() =~= a + e);
        assert(e.push(d.last()) =~= d);
    } else {
        assert(a + d =~= a);
        if a.len() > 0 {
            assert(a.last() == a[a.len() - 1]);
        }
    }
}

/// The number of a designator is what stands directly before it, whole: behind
/// whatever came before, up to the designator.
pub proof fn number_before_its_designator(a: Seq<char>, d: Seq<char>, suffix: char, rest: Seq<char>)
    requires
        numeric(d),
        is_number(d),
        a.len() > 0 ==> !('0' <= a[a.len() - 1] <= '9') && a[a.len() - 1] != '.',
        text::free_of(a, CharClass::One(suffix)),
        !('0' <= suffix <= '9') && suffix != '.',
    ensures
        number_before(a + d + seq![suffix] + rest, suffix) == Some(d),
        number_before(a, suffix) is None,
{
    let head = a + d;
    assert forall|i: int| 0 <= i < head.len() implies !CharClass::One(suffix).has(
        #[trigger] head[i],
    ) by {
        if i < a.len() {
            assert(head[i] == a[i]);
        } else {
            assert(head[i] == d[i - a.len()]);
        }
    }
    text::cut_at_the_first(head, suffix, rest, CharClass::One(suffix));
    text::cut_at_the_first(a, suffix, rest, CharClass::One(suffix));
    assert((head + seq![suffix] + rest).take(head.len() as int) =~= head);
    lemma_number_tail(a, d);
}

/// A duration of hours, minutes and seconds reads as it is written, the seconds
/// with a fraction where they have one; of days as well.
pub proof fn duration_reads_as_written(
    h: Seq<char>,
    m: Seq<char>,
    s: Seq<char>,
)
    requires
        numeric(h) && is_number(h),
        numeric(m) && is_number(m),
        numeric(s) && is_number(s),
    ensures
        iso_duration(seq!['P', 'T'] + h + seq!['H'] + m + seq!['M'] + s + seq!['S']) == Some(
            IsoView { days: None, hours: Some(h), minutes: Some(m), seconds: Some(s) },
        ),
        iso_duration(seq!['P'] + h + seq!['D', 'T'] + m + seq!['H']) == Some(
            IsoView { days: Some(h), hours: Some(m), minutes: None, seconds: None },
        ),
        iso_duration(seq!['P']) is None,
        iso_duration(seq!['P', 'T']) is None,
{
    let none = Seq::<char>::empty();
    let time = h + seq!['H'] + m + seq!['M'] + s + seq!['S'];
    let v = seq!['P', 'T'] + h + seq!['H'] + m + seq!['M'] + s + seq!['S'];
    assert(v =~= seq!['P'] + none + seq!['T'] + time);
    lemma_date_and_time(none, time);
    lemma_clock(h, m, s);
    number_before_its_designator(none, h, 'D', none);
    let date = h + seq!['D'];
    let clock = m + seq!['H'];
    let w = seq!['P'] + h + seq!['D', 'T'] + m + seq!['H'];
    assert(w =~= seq!['P'] + date + seq!['T'] + clock);
    assert forall|i: int| 0 <= i < date.len() implies !CharClass::Either('T', 't').has(
        #[trigger] date[i],
    ) by {
        if i < h.len() {
            assert(date[i] == h[i]);
        }
    }
    lemma_date_and_time(date, clock);
    lemma_single(h, 'D');
    lemma_single(m, 'H');
    lemma_free(m, 'H', 'M');
    lemma_free(m, 'H', 'S');
    number_before_its_designator(clock, m, 'M', none);
    number_before_its_designator(clock, m, 'S', none);
    lemma_no_duration();
}

proof fn lemma_no_duration()
    ensures
        iso_duration(seq!['P']) is None,
        iso_duration(seq!['P', 'T']) is None,
{
    let none = Seq::<char>::empty();
    let date_end = CharClass::Either('T', 't');
    let p = seq!['P'];
    text::trimming_keeps_the_core(none, p, none);
    assert(p.skip(1) =~= none);
    let pt = seq!['P', 'T'];
    text::trimming_keeps_the_core(none, pt, none);
    assert(pt.skip(1) =~= none + seq!['T'] + none);
    text::cut_at_the_first(none, 'T', none, date_end);
    assert(pt.skip(1).take(0) =~= none);
    assert(pt.skip(1).skip(1) =~= none);
}

proof fn lemma_single(d: Seq<char>, suffix: char)
    requires
        numeric(d),
        is_number(d),
        !('0' <= suffix <= '9') && suffix != '.',
    ensures
        number_before(d + seq![suffix], suffix) == Some(d),
{
    let none = Seq::<char>::empty();
    number_before_its_designator(none, d, suffix, none);
    assert(d + seq![suffix] =~= none + d + seq![suffix] + none);
}

proof fn lemma_date_and_time(date: Seq<char>, time: Seq<char>)
    requires
        text::free_of(date, CharClass::Either('T', 't')),
        time.len() > 0,
        !text::is_space(time[time.len() - 1]),
    ensures
        iso_duration(seq!['P'] + date + seq!['T'] + time) == Some(
            IsoView {
                days: number_before(date, 'D'),
                hours: number_before(time, 'H'),
                minutes: number_before(time, 'M'),
                seconds: number_before(time, 'S'),
            },
        ),
{
    let none = Seq::<char>::empty();
    let v = seq!['P'] + date + seq!['T'] + time;
    assert(v[0] == 'P');
    assert(v[v.len() - 1] == time[time.len() - 1]);
    text::trimming_keeps_the_core(none, v, none);
    let rest = v.skip(1);
    assert(rest =~= date + seq!['T'] + time);
    text::cut_at_the_first(date, 'T', time, CharClass::Either('T', 't'));
    assert(rest.take(date.len() as int) =~= date);
    assert(rest.skip(date.len() as int + 1) =~= time);
}

proof fn lemma_clock(h: Seq<char>, m: Seq<char>, s: Seq<char>)
    requires
        numeric(h) && is_number(h),
        numeric(m) && is_number(m),
        numeric(s) && is_number(s),
    ensures
        number_before(h + seq!['H'] + m + seq!['M'] + s + seq!['S'], 'H') == Some(h),
        number_before(h + seq!['H'] + m + seq!['M'] + s + seq!['S'], 'M') == Some(m),
        number_before(h + seq!['H'] + m + seq!['M'] + s + seq!['S'], 'S') == Some(s),
{
    let none = Seq::<char>::empty();
    let time = h + seq!['H'] + m + seq!['M'] + s + seq!['S'];
    number_before_its_designator(none, h, 'H', m + seq!['M'] + s + seq!['S']);
    assert(time =~= none + h + seq!['H'] + (m + seq!['M'] + s + seq!['S']));
    let hours = h + seq!['H'];
    lemma_free(h, 'H', 'M');
    number_before_its_designator(hours, m, 'M', s + seq!['S']);
    assert(time =~= hours + m + seq!['M'] + (s + seq!['S']));
    let both = hours + m + seq!['M'];
    lemma_free(h, 'H', 'S');
    assert forall|i: int| 0 <= i < both.len() implies !CharClass::One('S').has(
        #[trigger] both[i],
    ) by {
        if i < hours.len() {
            assert(both[i] == hours[i]);
        } else if i < hours.len() + m.len() {
            assert(both[i] == m[i - hours.len()]);
        }
    }
    number_before_its_designator(both, s, 'S', none);
    assert(time =~= both + s + seq!['S'] + none);
}

proof fn lemma_free(d: Seq<char>, own: char, other: char)
    requires
        numeric(d),
        own != other,
        !('0' <= other <= '9') && other != '.',
    ensures
        text::free_of(d + seq![own], CharClass::One(other)),
{
    let s = d + seq![own];
    assert forall|i: int| 0 <= i < s.len() implies !CharClass::One(other).has(#[trigger] s[i]) by {
        if i < d.len() {
            assert(s[i] == d[i]);
        }
    }
}

/// Digits make a number, and so do digits around one dot; a dot alone or two of
/// them do not.
pub proof fn digits_and_one_dot_make_a_number(a: Seq<char>, b: Seq<char>)
    requires
        text::all_digits(a),
        text::all_digits(b),
        a.len() > 0,
    ensures
        is_number(a) && numeric(a),
        is_number(a + seq!['.'] + b) && numeric(a + seq!['.'] + b),
        is_number(seq!['.'] + a),
        !is_number(seq!['.']),
        !is_number(a + seq!['.'] + b + seq!['.']),
        !is_number(Seq::empty()),
{
    assert('0' <= a[0] <= '9');
    let s = a + seq!['.'] + b;
    assert(s[0] == a[0]);
    assert forall|i: int| 0 <= i < s.len() implies '0' <= #[trigger] s[i] <= '9' || s[i] == '.' by {
        if i < a.len() {
            assert(s[i] == a[i]);
        } else if i > a.len() {
            assert(s[i] == b[i - a.len() - 1]);
        }
    }
    assert forall|i: int| 0 <= i < s.len() && i != a.len() implies #[trigger] s[i] != '.' by {
        if i < a.len() {
            assert(s[i] == a[i]);
        } else {
            assert(s[i] == b[i - a.len() - 1]);
        }
    }
    let d = seq!['.'] + a;
    assert(d[1] == a[0]);
    assert forall|i: int| 0 < i < d.len() implies #[trigger] d[i] != '.' by {
        assert(d[i] == a[i - 1]);
    }
    let dot = seq!['.'];
    assert(dot[0] == '.');
    let two = s + seq!['.'];
    assert(two[a.len() as int] == '.' && two[two.len() - 1] == '.');
}

/// An `Initialization` names the init fragment of the representation that is
/// open, or inside a segment list that of its set.
pub proof fn initialization_belongs_to_its_level(st: ScanView, source: Seq<char>)
    ensures
        st.rep is Some ==> st.initialization(Some(source)).rep is Some && st.initialization(
            Some(source),
        ).rep->0.init == Some(source) && st.initialization(Some(source)).as_init == st.as_init,
        st.rep is None && st.in_seglist ==> st.initialization(Some(source)).as_init == Some(source),
        st.rep is None && !st.in_seglist ==> st.initialization(Some(source)) == st,
        st.initialization(None) == st,
{
}

/// No two names of the tags that count are alike.
proof fn lemma_tag_names()
    ensures
        "MPD"@.len() == 3,
        "Period"@.len() == 6,
        "AdaptationSet"@.len() == 13,
        "Representation"@.len() == 14,
        "SegmentTemplate"@.len() == 15,
        "SegmentList"@.len() == 11,
        "SegmentURL"@.len() == 10,
        "Initialization"@.len() == 14,
        "BaseURL"@.len() == 7,
        "Initialization"@ != "Representation"@,
{
    reveal_strlit("MPD");
    reveal_strlit("Period");
    reveal_strlit("AdaptationSet");
    reveal_strlit("Representation");
    reveal_strlit("SegmentTemplate");
    reveal_strlit("SegmentList");
    reveal_strlit("SegmentURL");
    reveal_strlit("Initialization");
    reveal_strlit("BaseURL");
    assert("Initialization"@[0] != "Representation"@[0]);
}

/// What the tags inside a set do: a segment list is open from its tag on, each
/// `SegmentURL`, `Initialization` and `SegmentTemplate` is taken with the
/// attribute that it is for, and a `BaseURL` waits for its text.
pub proof fn tags_of_a_set_are_taken(st: ScanView, tag: TagView)
    requires
        tag.self_closing,
    ensures
        tag.name == "SegmentList"@ ==> st.open(tag) is Ok && st.open(tag)->Ok_0.in_seglist,
        tag.name == "SegmentURL"@ ==> st.open(tag) == Ok::<ScanView, ErrorView>(
            st.segment_url(markup::attr_of(tag.attrs, "media"@)),
        ),
        tag.name == "Initialization"@ ==> st.open(tag) == Ok::<ScanView, ErrorView>(
            st.initialization(markup::attr_of(tag.attrs, "sourceURL"@)),
        ),
        tag.name == "SegmentTemplate"@ ==> st.open(tag) == Ok::<ScanView, ErrorView>(
            st.template(tpl_of(tag)),
        ),
        tag.name == "BaseURL"@ ==> st.open(tag) is Ok && !st.open(tag)->Ok_0.base_capture,
{
    lemma_tag_names();
}

/// What the outer tags do: a manifest and a period have the durations that they
/// write, a set has its MIME type and nothing of the set before it, and each is
/// open until its closing tag.
pub proof fn outer_tags_are_taken(st: ScanView, tag: TagView)
    ensures
        tag.name == "MPD"@ && markup::attr_of(tag.attrs, "type"@) != Some("dynamic"@) ==> {
            let dur = iso_of(markup::attr_of(tag.attrs, "mediaPresentationDuration"@));
            &&& st.open(tag) is Ok
            &&& dur is Some ==> st.open(tag)->Ok_0.mpd_dur == dur
            &&& dur is None ==> st.open(tag)->Ok_0.mpd_dur == st.mpd_dur
            &&& st.open(tag)->Ok_0.stack == st.stack.push(tag.name)
        },
        tag.name == "Period"@ ==> {
            &&& st.open(tag) is Ok
            &&& st.open(tag)->Ok_0.period_dur == iso_of(markup::attr_of(tag.attrs, "duration"@))
            &&& st.open(tag)->Ok_0.period_base is None
            &&& st.open(tag)->Ok_0.mpd_dur == st.mpd_dur
            &&& st.open(tag)->Ok_0.stack == st.stack.push(tag.name)
            &&& st.close(tag.name).period_dur is None
            &&& st.close(tag.name).period_base is None
        },
        tag.name == "AdaptationSet"@ ==> {
            &&& st.open(tag) is Ok
            &&& st.open(tag)->Ok_0.as_mime == markup::attr_of(tag.attrs, "mimeType"@)
            &&& st.open(tag)->Ok_0.as_tpl is None
            &&& st.open(tag)->Ok_0.as_base is None
            &&& st.open(tag)->Ok_0.as_seg_urls.len() == 0
            &&& st.open(tag)->Ok_0.stack == st.stack.push(tag.name)
            &&& st.close(tag.name).as_tpl is None
            &&& st.close(tag.name).as_mime is None
        },
        tag.name == "BaseURL"@ && !tag.self_closing ==> st.open(tag) is Ok && st.open(
            tag,
        )->Ok_0.base_capture,
        tag.name == "SegmentList"@ ==> !st.close(tag.name).in_seglist,
{
    lemma_tag_names();
}

/// A representation that a manifest never closes is complete at its end, behind
/// those that were closed; where the reading ended early, those that were
/// complete by then are kept.
pub proof fn open_representation_is_complete_at_the_end(text: Seq<char>)
    ensures
        ({
            let (st, failure) = scan_from(text, ScanView::start());
            let (plans, error) = scanned(text);
            &&& error == failure
            &&& failure is Some ==> plans == st.plans
            &&& failure is None && st.rep is None ==> plans == st.plans
            &&& failure is None && st.rep is Some ==> {
                &&& plans.len() == st.plans.len() + 1
                &&& plans.last().id == st.rep->0.id
                &&& plans.last().bandwidth == st.rep->0.bandwidth
                &&& forall|i: int| 0 <= i < st.plans.len() ==> plans[i] == #[trigger] st.plans[i]
            }
        }),
        ScanView::start().plans.len() == 0,
        ScanView::start().rep is None,
        ScanView::start().stack.len() == 0,
{
}

/// A closing tag closes the element that is open innermost where it has the same
/// name, and else leaves what is open.
pub proof fn closing_tags_close_the_innermost(st: ScanView, name: Seq<char>)
    ensures
        st.stack.len() > 0 && st.stack.last() == name ==> st.close(name).stack
            == st.stack.drop_last(),
        st.stack.len() == 0 || st.stack.last() != name ==> st.close(name).stack == st.stack,
        name == "Representation"@ && st.rep is Some ==> st.close(name).plans.len()
            == st.plans.len() + 1,
        name != "Representation"@ ==> st.close(name).plans == st.plans,
        name != "Representation"@ ==> st.close(name).rep == st.rep,
{
}

/// The letters that begin a duration and its time part may be small ones.
pub proof fn small_letters_begin_a_duration_too(date: Seq<char>, time: Seq<char>)
    requires
        text::free_of(date, CharClass::Either('T', 't')),
        time.len() > 0,
        !text::is_space(time[time.len() - 1]),
    ensures
        iso_duration(seq!['p'] + date + seq!['t'] + time) == iso_duration(
            seq!['P'] + date + seq!['T'] + time,
        ),
{
    lemma_date_and_time(date, time);
    let none = Seq::<char>::empty();
    let v = seq!['p'] + date + seq!['t'] + time;
    assert(v[0] == 'p');
    assert(v[v.len() - 1] == time[time.len() - 1]);
    text::trimming_keeps_the_core(none, v, none);
    let rest = v.skip(1);
    assert(rest =~= date + seq!['t'] + time);
    text::cut_at_the_first(date, 't', time, CharClass::Either('T', 't'));
    assert(rest.take(date.len() as int) =~= date);
    assert(rest.skip(date.len() as int + 1) =~= time);
}

} // verus!
