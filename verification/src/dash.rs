//! DASH streams: the URLs that the representations of a manifest stand for.
//!
//! How many segments a template stands for is a quotient of two durations, so
//! the caller works it out and hands it back as a [`Timing`].

use vstd::prelude::*;

use crate::error::{CcdmError, ErrorView};
use crate::manifest::{self, scan_mpd, MpdScan, PlanView, RepPlan, SegTpl, TplView};
use crate::text::{self, chars_of, copy_opt, decimal_of, replaced, string_of};
use crate::urls::{self, resolve_url};

verus! {

/// What the durations of a plan come to, for a plan with a template.
#[derive(Debug, Clone, Copy)]
pub struct Timing {
    /// Whether the segment duration of the template is a number above zero.
    pub usable: bool,
    /// How many segments of that duration, divided by the timescale (at
    /// least one), cover the total duration, rounded up.
    pub count: u64,
}

/// Segments that one template may stand for.
pub const MAX_SEGMENTS: u64 = 100_000;

/// One downloadable DASH rendition.
#[derive(Debug, Clone)]
pub struct DashStream {
    pub id: String,
    pub bandwidth: u64,
    pub mime: Option<String>,
    pub init: Option<String>,
    pub segments: Vec<String>,
}

/// The texts and numbers of a [`DashStream`].
#[verifier::ext_equal]
pub struct StreamView {
    pub id: Seq<char>,
    pub bandwidth: nat,
    pub mime: Option<Seq<char>>,
    pub init: Option<Seq<char>>,
    pub segments: Seq<Seq<char>>,
}

impl View for DashStream {
    type V = StreamView;

    open spec fn view(&self) -> StreamView {
        StreamView {
            id: self.id@,
            bandwidth: self.bandwidth as nat,
            mime: text::opt_view(self.mime),
            init: text::opt_view(self.init),
            segments: text::views(self.segments@),
        }
    }
}

pub open spec fn streams_view(v: Seq<DashStream>) -> Seq<StreamView> {
    Seq::new(v.len(), |i: int| v[i]@)
}

/// The base that a chain of `BaseURL`s leads to from `url`; the first one
/// that does not resolve is the error.
pub open spec fn chained(url: Seq<char>, bases: Seq<Seq<char>>) -> Result<Seq<char>, ErrorView>
    decreases bases.len(),
{
    if bases.len() == 0 {
        Ok(url)
    } else {
        match chained(url, bases.drop_last()) {
            Ok(base) => urls::resolved(base, bases.last()),
            Err(e) => Err(e),
        }
    }
}

/// Each of `refs` against `base`; the first one that does not resolve is the
/// error.
pub open spec fn resolved_all(base: Seq<char>, refs: Seq<Seq<char>>) -> Result<
    Seq<Seq<char>>,
    ErrorView,
>
    decreases refs.len(),
{
    if refs.len() == 0 {
        Ok(Seq::empty())
    } else {
        match resolved_all(base, refs.drop_last()) {
            Ok(done) => match urls::resolved(base, refs.last()) {
                Ok(u) => Ok(done.push(u)),
                Err(e) => Err(e),
            },
            Err(e) => Err(e),
        }
    }
}

/// A reference that may be missing, against `base`.
pub open spec fn resolved_opt(base: Seq<char>, reference: Option<Seq<char>>) -> Result<
    Option<Seq<char>>,
    ErrorView,
> {
    match reference {
        Some(u) => match urls::resolved(base, u) {
            Ok(v) => Ok(Some(v)),
            Err(e) => Err(e),
        },
        None => Ok(None),
    }
}

/// A template with its number and its representation filled in.
pub open spec fn filled(template: Seq<char>, n: nat, id: Seq<char>) -> Seq<char> {
    text::replace(text::replace(template, "$Number$"@, text::decimal(n)), "$RepresentationID$"@, id)
}

/// The references that a template stands for; its segments are numbered on
/// from `start`, however large that is.
pub open spec fn template_refs(media: Seq<char>, start: nat, count: nat, id: Seq<char>) -> Seq<
    Seq<char>,
> {
    Seq::new(count, |i: int| filled(media, (start + i) as nat, id))
}

/// The stream of a plan without template: its segment list, or else the base
/// itself.
pub open spec fn listed_stream(p: PlanView, base: Seq<char>) -> Result<StreamView, ErrorView> {
    let segments = if p.seg_urls.len() > 0 {
        resolved_all(base, p.seg_urls)
    } else {
        Ok(seq![base])
    };
    match segments {
        Err(e) => Err(e),
        Ok(segments) => match resolved_opt(base, p.init) {
            Err(e) => Err(e),
            Ok(init) => Ok(
                StreamView { id: p.id, bandwidth: p.bandwidth, mime: p.mime, init, segments },
            ),
        },
    }
}

/// The references that a template stands for: the init fragment, where there
/// is one, and the segments.
#[derive(Debug, Clone)]
pub struct Outline {
    pub init: Option<String>,
    pub segments: Vec<String>,
}

/// The texts of an [`Outline`].
#[verifier::ext_equal]
pub struct OutlineView {
    pub init: Option<Seq<char>>,
    pub segments: Seq<Seq<char>>,
}

impl View for Outline {
    type V = OutlineView;

    open spec fn view(&self) -> OutlineView {
        OutlineView { init: text::opt_view(self.init), segments: text::views(self.segments@) }
    }
}

/// What a template stands for.
pub open spec fn outlined(p: PlanView, tpl: TplView, t: Timing) -> Result<OutlineView, ErrorView> {
    if tpl.media is None {
        Err(ErrorView::Unsupported("SegmentTemplate without @media"@))
    } else if tpl.duration is None || !t.usable {
        Err(ErrorView::Unsupported("SegmentTemplate without @duration"@))
    } else if p.total is None {
        Err(
            ErrorView::Unsupported(
                "cannot determine DASH segment count (no Period duration)"@,
            ),
        )
    } else if t.count == 0 || t.count > MAX_SEGMENTS {
        Err(ErrorView::Unsupported("implausible DASH segment count"@))
    } else {
        Ok(
            OutlineView {
                init: match tpl.initialization {
                    Some(i) => Some(filled(i, tpl.start_number, p.id)),
                    None => None,
                },
                segments: template_refs(tpl.media->0, tpl.start_number, t.count as nat, p.id),
            },
        )
    }
}

/// The stream of a plan with a template.
pub open spec fn template_stream(
    p: PlanView,
    tpl: TplView,
    base: Seq<char>,
    t: Timing,
) -> Result<StreamView, ErrorView> {
    match outlined(p, tpl, t) {
        Err(e) => Err(e),
        Ok(o) => match resolved_opt(base, o.init) {
            Err(e) => Err(e),
            Ok(init) => match resolved_all(base, o.segments) {
                Err(e) => Err(e),
                Ok(segments) => Ok(
                    StreamView { id: p.id, bandwidth: p.bandwidth, mime: p.mime, init, segments },
                ),
            },
        },
    }
}

/// The stream of a plan; a blank one has none.
pub open spec fn stream_of(url: Seq<char>, p: PlanView, t: Timing) -> Result<
    Option<StreamView>,
    ErrorView,
> {
    if p.blank {
        Ok(None)
    } else {
        match chained(url, p.bases) {
            Err(e) => Err(e),
            Ok(base) => {
                let stream = if p.seg_urls.len() == 0 && p.tpl is Some {
                    template_stream(p, p.tpl->0, base, t)
                } else {
                    listed_stream(p, base)
                };
                match stream {
                    Err(e) => Err(e),
                    Ok(s) => Ok(Some(s)),
                }
            },
        }
    }
}

proof fn lemma_resolved_all_prefix(base: Seq<char>, refs: Seq<Seq<char>>, k: int)
    requires
        0 <= k <= refs.len(),
        resolved_all(base, refs.take(k)) is Err,
    ensures
        resolved_all(base, refs) == resolved_all(base, refs.take(k)),
    decreases refs.len(),
{
    if k < refs.len() {
        assert(refs.drop_last().take(k) =~= refs.take(k));
        lemma_resolved_all_prefix(base, refs.drop_last(), k);
    } else {
        assert(refs.take(k) =~= refs);
    }
}

proof fn lemma_chained_prefix(url: Seq<char>, bases: Seq<Seq<char>>, k: int)
    requires
        0 <= k <= bases.len(),
        chained(url, bases.take(k)) is Err,
    ensures
        chained(url, bases) == chained(url, bases.take(k)),
    decreases bases.len(),
{
    if k < bases.len() {
        assert(bases.drop_last().take(k) =~= bases.take(k));
        lemma_chained_prefix(url, bases.drop_last(), k);
    } else {
        assert(bases.take(k) =~= bases);
    }
}

pub open spec fn list_view(r: Result<Vec<String>, CcdmError>) -> Result<
    Seq<Seq<char>>,
    ErrorView,
> {
    match r {
        Ok(v) => Ok(text::views(v@)),
        Err(e) => Err(e@),
    }
}

pub open spec fn opt_url_view(r: Result<Option<String>, CcdmError>) -> Result<
    Option<Seq<char>>,
    ErrorView,
> {
    match r {
        Ok(v) => Ok(text::opt_view(v)),
        Err(e) => Err(e@),
    }
}

fn chain_bases(url: &str, bases: &Vec<String>) -> (r: Result<String, CcdmError>)
    ensures
        urls::url_view(r) == chained(url@, text::views(bases@)),
{
    let ghost all = text::views(bases@);
    let mut base = url.to_string();
    let mut i: usize = 0;
    while i < bases.len()
        invariant
            i <= bases.len(),
            all == text::views(bases@),
            chained(url@, all.take(i as int)) == Ok::<Seq<char>, ErrorView>(base@),
        decreases bases.len() - i,
    {
        assert(all.take(i + 1).drop_last() =~= all.take(i as int));
        assert(all.take(i + 1).last() == bases@[i as int]@);
        match resolve_url(base.as_str(), bases[i].as_str()) {
            Ok(u) => {
                base = u;
            },
            Err(e) => {
                proof {
                    lemma_chained_prefix(url@, all, i + 1);
                }
                return Err(e);
            },
        }
        i = i + 1;
    }
    assert(all.take(i as int) =~= all);
    Ok(base)
}

fn resolve_list(base: &str, refs: &Vec<String>) -> (r: Result<Vec<String>, CcdmError>)
    ensures
        list_view(r) == resolved_all(base@, text::views(refs@)),
{
    let ghost all = text::views(refs@);
    let mut out: Vec<String> = Vec::new();
    let mut i: usize = 0;
    assert(text::views(out@) =~= Seq::empty());
    while i < refs.len()
        invariant
            i <= refs.len(),
            all == text::views(refs@),
            resolved_all(base@, all.take(i as int)) == Ok::<Seq<Seq<char>>, ErrorView>(text::views(out@)),
        decreases refs.len() - i,
    {
        assert(all.take(i + 1).drop_last() =~= all.take(i as int));
        assert(all.take(i + 1).last() == refs@[i as int]@);
        match resolve_url(base, refs[i].as_str()) {
            Ok(u) => {
                let ghost done = text::views(out@);
                out.push(u);
                assert(text::views(out@) =~= done.push(u@));
            },
            Err(e) => {
                proof {
                    lemma_resolved_all_prefix(base@, all, i + 1);
                }
                return Err(e);
            },
        }
        i = i + 1;
    }
    assert(all.take(i as int) =~= all);
    Ok(out)
}

fn resolve_opt(base: &str, reference: &Option<String>) -> (r: Result<Option<String>, CcdmError>)
    ensures
        opt_url_view(r) == resolved_opt(base@, text::opt_view(*reference)),
{
    match reference {
        Some(u) => match resolve_url(base, u.as_str()) {
            Ok(v) => Ok(Some(v)),
            Err(e) => Err(e),
        },
        None => Ok(None),
    }
}

/// A template with its number and its representation filled in.
pub fn fill_template(template: &str, n: u128, id: &str) -> (r: String)
    ensures
        r@ == filled(template@, n as nat, id@),
{
    proof {
        reveal_strlit("$Number$");
        reveal_strlit("$RepresentationID$");
    }
    let numbered = replaced(
        chars_of(template).as_slice(),
        "$Number$",
        decimal_of(n).as_slice(),
    );
    string_of(
        replaced(
            numbered.as_slice(),
            "$RepresentationID$",
            chars_of(id).as_slice(),
        ).as_slice(),
    )
}

fn list_template(media: &str, start: u64, count: u64, id: &str) -> (r: Vec<String>)
    ensures
        text::views(r@) == template_refs(media@, start as nat, count as nat, id@),
{
    let ghost all = template_refs(media@, start as nat, count as nat, id@);
    let mut out: Vec<String> = Vec::new();
    let mut i: u64 = 0;
    while i < count
        invariant
            i <= count,
            all == template_refs(media@, start as nat, count as nat, id@),
            text::views(out@) == all.take(i as int),
        decreases count - i,
    {
        let ghost done = text::views(out@);
        let reference = fill_template(media, start as u128 + i as u128, id);
        out.push(reference);
        assert(text::views(out@) =~= done.push(reference@));
        assert(all.take(i + 1) =~= all.take(i as int).push(all[i as int]));
        i = i + 1;
    }
    assert(all.take(i as int) =~= all);
    out
}

pub open spec fn outline_view(r: Result<Outline, CcdmError>) -> Result<OutlineView, ErrorView> {
    match r {
        Ok(o) => Ok(o@),
        Err(e) => Err(e@),
    }
}

fn unsupported(what: &str) -> (r: Result<Outline, CcdmError>)
    ensures
        outline_view(r) == Err::<OutlineView, ErrorView>(ErrorView::Unsupported(what@)),
{
    Err(CcdmError::Unsupported(what.to_string()))
}

/// What a template stands for; `t` is what the durations of the plan come to.
pub fn outline(p: &RepPlan, tpl: &SegTpl, t: Timing) -> (r: Result<Outline, CcdmError>)
    ensures
        outline_view(r) == outlined(p@, tpl@, t),
{
    let media = match &tpl.media {
        Some(m) => m,
        None => {
            return unsupported("SegmentTemplate without @media");
        },
    };
    if tpl.duration.is_none() || !t.usable {
        return unsupported("SegmentTemplate without @duration");
    }
    if p.total.is_none() {
        return unsupported("cannot determine DASH segment count (no Period duration)");
    }
    if t.count == 0 || t.count > MAX_SEGMENTS {
        return unsupported("implausible DASH segment count");
    }
    let init = match &tpl.initialization {
        Some(i) => Some(fill_template(i.as_str(), tpl.start_number as u128, p.id.as_str())),
        None => None,
    };
    let segments = list_template(media.as_str(), tpl.start_number, t.count, p.id.as_str());
    Ok(Outline { init, segments })
}

pub open spec fn stream_view(r: Result<Option<DashStream>, CcdmError>) -> Result<
    Option<StreamView>,
    ErrorView,
> {
    match r {
        Ok(Some(s)) => Ok(Some(s@)),
        Ok(None) => Ok(None),
        Err(e) => Err(e@),
    }
}

fn finish_template(p: &RepPlan, tpl: &SegTpl, base: &str, t: Timing) -> (r: Result<
    Option<DashStream>,
    CcdmError,
>)
    ensures
        stream_view(r) == (match template_stream(p@, tpl@, base@, t) {
            Ok(s) => Ok(Some(s)),
            Err(e) => Err(e),
        }),
{
    let o = match outline(p, tpl, t) {
        Ok(o) => o,
        Err(e) => {
            return Err(e);
        },
    };
    let init = match resolve_opt(base, &o.init) {
        Ok(i) => i,
        Err(e) => {
            return Err(e);
        },
    };
    let segments = match resolve_list(base, &o.segments) {
        Ok(s) => s,
        Err(e) => {
            return Err(e);
        },
    };
    Ok(
        Some(
            DashStream {
                id: p.id.clone(),
                bandwidth: p.bandwidth,
                mime: copy_opt(&p.mime),
                init,
                segments,
            },
        ),
    )
}

fn finish_list(p: &RepPlan, base: String) -> (r: Result<Option<DashStream>, CcdmError>)
    ensures
        stream_view(r) == (match listed_stream(p@, base@) {
            Ok(s) => Ok(Some(s)),
            Err(e) => Err(e),
        }),
{
    let segments = if p.seg_urls.len() > 0 {
        match resolve_list(base.as_str(), &p.seg_urls) {
            Ok(s) => s,
            Err(e) => {
                return Err(e);
            },
        }
    } else {
        let mut own: Vec<String> = Vec::new();
        own.push(base.clone());
        assert(text::views(own@) =~= seq![base@]);
        own
    };
    match resolve_opt(base.as_str(), &p.init) {
        Ok(init) => Ok(
            Some(
                DashStream {
                    id: p.id.clone(),
                    bandwidth: p.bandwidth,
                    mime: copy_opt(&p.mime),
                    init,
                    segments,
                },
            ),
        ),
        Err(e) => Err(e),
    }
}

/// The stream of a representation; `t` is what its durations come to.
pub fn finish_rep(mpd_url: &str, p: &RepPlan, t: Timing) -> (r: Result<
    Option<DashStream>,
    CcdmError,
>)
    ensures
        stream_view(r) == stream_of(mpd_url@, p@, t),
{
    if p.blank {
        return Ok(None);
    }
    let base = match chain_bases(mpd_url, &p.bases) {
        Ok(b) => b,
        Err(e) => {
            return Err(e);
        },
    };
    if p.seg_urls.len() > 0 {
        return finish_list(p, base);
    }
    match &p.tpl {
        Some(tpl) => finish_template(p, tpl, base.as_str(), t),
        None => finish_list(p, base),
    }
}

/// The streams of the first `plans.len()` representations, or the first
/// error.
pub open spec fn streams_of(url: Seq<char>, plans: Seq<PlanView>, t: Seq<Timing>) -> Result<
    Seq<StreamView>,
    ErrorView,
>
    decreases plans.len(),
{
    if plans.len() == 0 {
        Ok(Seq::empty())
    } else {
        match streams_of(url, plans.drop_last(), t) {
            Err(e) => Err(e),
            Ok(done) => match stream_of(url, plans.last(), t[plans.len() - 1]) {
                Err(e) => Err(e),
                Ok(Some(s)) => Ok(done.push(s)),
                Ok(None) => Ok(done),
            },
        }
    }
}

/// The outcome of a manifest: an error among the representations that were
/// complete comes before the one that ended the scan.
pub open spec fn mpd_outcome(
    url: Seq<char>,
    plans: Seq<PlanView>,
    failure: Option<ErrorView>,
    t: Seq<Timing>,
) -> Result<Seq<StreamView>, ErrorView> {
    match streams_of(url, plans, t) {
        Err(e) => Err(e),
        Ok(s) => match failure {
            Some(e) => Err(e),
            None => Ok(s),
        },
    }
}

/// A manifest whose scan ended early gives no streams.
pub proof fn failed_scan_gives_no_streams(
    url: Seq<char>,
    plans: Seq<PlanView>,
    failure: ErrorView,
    t: Seq<Timing>,
)
    ensures
        mpd_outcome(url, plans, Some(failure), t) is Err,
        streams_of(url, plans, t) is Ok ==> mpd_outcome(url, plans, Some(failure), t)->Err_0
            == failure,
{
}

proof fn lemma_streams_prefix(url: Seq<char>, plans: Seq<PlanView>, t: Seq<Timing>, k: int)
    requires
        0 <= k <= plans.len(),
        streams_of(url, plans.take(k), t) is Err,
    ensures
        streams_of(url, plans, t) == streams_of(url, plans.take(k), t),
    decreases plans.len(),
{
    if k < plans.len() {
        assert(plans.drop_last().take(k) =~= plans.take(k));
        lemma_streams_prefix(url, plans.drop_last(), t, k);
    } else {
        assert(plans.take(k) =~= plans);
    }
}

pub open spec fn mpd_view(r: Result<Vec<DashStream>, CcdmError>) -> Result<
    Seq<StreamView>,
    ErrorView,
> {
    match r {
        Ok(v) => Ok(streams_view(v@)),
        Err(e) => Err(e@),
    }
}

/// The streams of a scanned manifest; `timings` holds, for each plan, what
/// its durations come to.
fn build_streams(mpd_url: &str, scan: MpdScan, timings: &Vec<Timing>) -> (r: Result<
    Vec<DashStream>,
    CcdmError,
>)
    requires
        timings@.len() == scan.plans@.len(),
    ensures
        mpd_view(r) == mpd_outcome(
            mpd_url@,
            manifest::plans_view(scan.plans@),
            manifest::error_view(scan.failure),
            timings@,
        ),
{
    let ghost all = manifest::plans_view(scan.plans@);
    let mut out: Vec<DashStream> = Vec::new();
    let mut i: usize = 0;
    assert(streams_view(out@) =~= Seq::empty());
    while i < scan.plans.len()
        invariant
            i <= scan.plans.len(),
            all == manifest::plans_view(scan.plans@),
            timings@.len() == scan.plans@.len(),
            streams_of(mpd_url@, all.take(i as int), timings@) == Ok::<Seq<StreamView>, ErrorView>(
                streams_view(out@),
            ),
        decreases scan.plans.len() - i,
    {
        assert(all.take(i + 1).drop_last() =~= all.take(i as int));
        assert(all.take(i + 1).last() == scan.plans@[i as int]@);
        match finish_rep(mpd_url, &scan.plans[i], timings[i]) {
            Ok(Some(s)) => {
                let ghost done = streams_view(out@);
                out.push(s);
                assert(streams_view(out@) =~= done.push(s@));
            },
            Ok(None) => {},
            Err(e) => {
                proof {
                    lemma_streams_prefix(mpd_url@, all, timings@, i + 1);
                }
                return Err(e);
            },
        }
        i = i + 1;
    }
    assert(all.take(i as int) =~= all);
    match scan.failure {
        Some(e) => Err(e),
        None => Ok(out),
    }
}

/// The streams of an MPD manifest; `timings` holds, for each plan that
/// [`scan_mpd`] reads from it, what its durations come to. Supports
/// SegmentTemplate with `@duration`, SegmentList, and BaseURL chaining.
/// Live/dynamic manifests are refused.
pub fn parse_mpd(mpd_url: &str, text: &str, timings: &Vec<Timing>) -> (r: Result<
    Vec<DashStream>,
    CcdmError,
>)
    requires
        timings@.len() == manifest::scanned(text@).0.len(),
    ensures
        mpd_view(r) == mpd_outcome(
            mpd_url@,
            manifest::scanned(text@).0,
            manifest::scanned(text@).1,
            timings@,
        ),
{
    let scan = scan_mpd(text);
    build_streams(mpd_url, scan, timings)
}

proof fn lemma_dollar_free(s: Seq<char>, pat: Seq<char>)
    requires
        text::free_of(s, text::CharClass::One('$')),
        pat.len() > 0,
        pat[0] == '$',
    ensures
        forall|j: int| !#[trigger] text::stands_at(s, pat, j),
{
    assert forall|j: int| !#[trigger] text::stands_at(s, pat, j) by {
        if text::stands_at(s, pat, j) {
            assert(s[j + 0] == pat[0]);
            assert(!text::CharClass::One('$').has(s[j]));
        }
    }
}

proof fn lemma_replaced_once(a: Seq<char>, pat: Seq<char>, b: Seq<char>, with: Seq<char>)
    requires
        text::free_of(a, text::CharClass::One('$')),
        text::free_of(b, text::CharClass::One('$')),
        pat.len() > 0,
        pat[0] == '$',
    ensures
        text::replace(a + pat + b, pat, with) == a + with + b,
{
    let s = a + pat + b;
    assert forall|j: int| 0 <= j < a.len() implies !#[trigger] text::stands_at(s, pat, j) by {
        if text::stands_at(s, pat, j) {
            assert(s[j + 0] == pat[0]);
            assert(s[j] == a[j]);
            assert(!text::CharClass::One('$').has(a[j]));
        }
    }
    text::first_place_is_replaced(a, pat, b, with);
    lemma_dollar_free(b, pat);
    text::nothing_else_is_replaced(b, pat, with);
}

proof fn lemma_number_nowhere(a: Seq<char>, b: Seq<char>)
    requires
        text::free_of(a, text::CharClass::One('$')),
        text::free_of(b, text::CharClass::One('$')),
    ensures
        forall|j: int|
            !#[trigger] text::stands_at(a + "$RepresentationID$"@ + b, "$Number$"@, j),
{
    reveal_strlit("$Number$");
    reveal_strlit("$RepresentationID$");
    let pat = "$Number$"@;
    let id = "$RepresentationID$"@;
    let s = a + id + b;
    assert forall|j: int| !#[trigger] text::stands_at(s, pat, j) by {
        if text::stands_at(s, pat, j) {
            assert(s[j + 0] == pat[0]);
            assert(s[j + 1] == pat[1]);
            assert(s[j + 7] == pat[7]);
            if j < a.len() {
                assert(s[j] == a[j]);
                assert(!text::CharClass::One('$').has(a[j]));
            } else if j < a.len() + 18 {
                let k = j - a.len();
                assert(s[j] == id[k]);
                if k == 0 {
                    assert(s[j + 1] == id[1]);
                } else if k == 17 {
                    assert(s[j + 7] == b[6]);
                    assert(!text::CharClass::One('$').has(b[6]));
                }
            } else {
                let k = j - a.len() - 18;
                assert(s[j] == b[k]);
                assert(!text::CharClass::One('$').has(b[k]));
            }
        }
    }
}

/// A template is filled in where it says so and kept everywhere else: the number
/// in decimal, and the id of the representation.
pub proof fn template_is_filled_in(a: Seq<char>, b: Seq<char>, n: nat, id: Seq<char>)
    requires
        text::free_of(a, text::CharClass::One('$')),
        text::free_of(b, text::CharClass::One('$')),
    ensures
        filled(a + "$Number$"@ + b, n, id) == a + text::decimal(n) + b,
        filled(a + "$RepresentationID$"@ + b, n, id) == a + id + b,
        filled(a, n, id) == a,
{
    reveal_strlit("$Number$");
    reveal_strlit("$RepresentationID$");
    let d = text::decimal(n);
    text::decimal_reads_back(n);
    lemma_replaced_once(a, "$Number$"@, b, d);
    let s = a + d + b;
    assert forall|i: int| 0 <= i < s.len() implies !text::CharClass::One('$').has(
        #[trigger] s[i],
    ) by {
        if i < a.len() {
            assert(s[i] == a[i]);
        } else if i < a.len() + d.len() {
            assert(s[i] == d[i - a.len()]);
            assert('0' <= d[i - a.len()] <= '9');
        } else {
            assert(s[i] == b[i - a.len() - d.len()]);
        }
    }
    lemma_dollar_free(s, "$RepresentationID$"@);
    text::nothing_else_is_replaced(s, "$RepresentationID$"@, id);
    lemma_number_nowhere(a, b);
    text::nothing_else_is_replaced(a + "$RepresentationID$"@ + b, "$Number$"@, d);
    lemma_replaced_once(a, "$RepresentationID$"@, b, id);
    lemma_dollar_free(a, "$Number$"@);
    lemma_dollar_free(a, "$RepresentationID$"@);
    text::nothing_else_is_replaced(a, "$Number$"@, d);
    text::nothing_else_is_replaced(a, "$RepresentationID$"@, id);
}

/// A template that names the representation and then the number has both filled
/// in, as is usual for segments.
pub proof fn usual_template_is_filled_in(
    a: Seq<char>,
    b: Seq<char>,
    c: Seq<char>,
    n: nat,
    id: Seq<char>,
)
    requires
        text::free_of(a, text::CharClass::One('$')),
        text::free_of(b, text::CharClass::One('$')),
        text::free_of(c, text::CharClass::One('$')),
        b.len() > 0,
        b != "Number"@,
    ensures
        filled(a + "$RepresentationID$"@ + b + "$Number$"@ + c, n, id) == a + id + b
            + text::decimal(n) + c,
{
    reveal_strlit("$Number$");
    reveal_strlit("$RepresentationID$");
    let num = "$Number$"@;
    let rep = "$RepresentationID$"@;
    let d = text::decimal(n);
    let head = a + rep + b;
    let s = head + num + c;
    lemma_number_nowhere(a, b);
    assert forall|j: int| 0 <= j < head.len() implies !#[trigger] text::stands_at(s, num, j) by {
        if text::stands_at(s, num, j) {
            if j + 8 <= head.len() {
                assert forall|k: int| 0 <= k < num.len() implies head[j + k]
                    == #[trigger] num[k] by {
                    assert(s[j + k] == num[k]);
                }
                assert(text::stands_at(head, num, j));
            } else {
                let k = head.len() - j;
                assert(s[j + k] == num[k]);
                assert(s[head.len() as int] == '$');
                assert(k == 7);
                assert(s[j + 0] == num[0]);
                assert(s[j + 1] == num[1]);
                assert(s[j] == head[j]);
                if b.len() >= 7 {
                    assert(head[j] == b[b.len() - 7]);
                    assert(!text::CharClass::One('$').has(b[b.len() - 7]));
                } else {
                    let x = j - a.len();
                    assert(head[j] == rep[x]);
                    assert(x == 11 + b.len());
                    if x == 17 {
                        reveal_strlit("Number");
                        assert forall|y: int| 0 <= y < 6 implies #[trigger] b[y] == num[y + 1] by {
                            assert(s[j + (y + 1)] == num[y + 1]);
                            assert(s[j + 1 + y] == b[y]);
                        }
                        assert(b =~= "Number"@);
                    }
                }
            }
        }
    }
    text::first_place_is_replaced(head, num, c, d);
    lemma_dollar_free(c, num);
    text::nothing_else_is_replaced(c, num, d);
    text::decimal_reads_back(n);
    let tail = b + d + c;
    assert forall|i: int| 0 <= i < tail.len() implies !text::CharClass::One('$').has(
        #[trigger] tail[i],
    ) by {
        if i < b.len() {
            assert(tail[i] == b[i]);
        } else if i < b.len() + d.len() {
            assert(tail[i] == d[i - b.len()]);
            assert('0' <= d[i - b.len()] <= '9');
        } else {
            assert(tail[i] == c[i - b.len() - d.len()]);
        }
    }
    lemma_replaced_once(a, rep, tail, id);
    assert(head + d + c =~= a + rep + tail);
    assert(a + id + tail =~= a + id + b + d + c);
}

/// References that resolve are as many as were written, in their order, each
/// resolved against the base; one that does not resolve is an error.
pub proof fn references_are_resolved_in_order(base: Seq<char>, refs: Seq<Seq<char>>)
    ensures
        resolved_all(base, refs) matches Ok(v) ==> {
            &&& v.len() == refs.len()
            &&& forall|i: int|
                0 <= i < v.len() ==> urls::resolved(base, refs[i]) == Ok::<Seq<char>, ErrorView>(
                    #[trigger] v[i],
                )
        },
        resolved_all(base, refs) is Ok <==> forall|i: int|
            0 <= i < refs.len() ==> urls::resolved(base, #[trigger] refs[i]) is Ok,
    decreases refs.len(),
{
    if refs.len() > 0 {
        let init = refs.drop_last();
        references_are_resolved_in_order(base, init);
        if forall|i: int|
            0 <= i < refs.len() ==> urls::resolved(base, #[trigger] refs[i]) is Ok {
            assert forall|i: int| 0 <= i < init.len() implies urls::resolved(
                base,
                #[trigger] init[i],
            ) is Ok by {
                assert(init[i] == refs[i]);
            }
            assert(refs.last() == refs[refs.len() - 1]);
        }
        if resolved_all(base, refs) is Ok {
            assert forall|i: int| 0 <= i < refs.len() implies urls::resolved(
                base,
                #[trigger] refs[i],
            ) is Ok by {
                if i < init.len() {
                    assert(init[i] == refs[i]);
                }
            }
        }
    }
}

/// Bases are followed from the manifest down: each is resolved against what the
/// ones before it lead to.
pub proof fn bases_are_followed_in_order(url: Seq<char>, first: Seq<char>, rest: Seq<Seq<char>>)
    ensures
        chained(url, Seq::empty()) == Ok::<Seq<char>, ErrorView>(url),
        chained(url, seq![first] + rest) == (match urls::resolved(url, first) {
            Ok(base) => chained(base, rest),
            Err(e) => Err(e),
        }),
    decreases rest.len(),
{
    let all = seq![first] + rest;
    if rest.len() > 0 {
        bases_are_followed_in_order(url, first, rest.drop_last());
        assert(all.drop_last() =~= seq![first] + rest.drop_last());
        assert(all.last() == rest.last());
    } else {
        assert(all.drop_last() =~= Seq::empty());
        assert(all.last() == first);
    }
}

/// A template stands for as many segments as the durations come to, numbered on
/// from its start number, and for its init fragment where it names one. It is
/// refused exactly where it lacks a reference or a duration, the total is
/// unknown, or the count is implausible.
pub proof fn template_segments_are_numbered_on(p: PlanView, tpl: TplView, t: Timing)
    ensures
        outlined(p, tpl, t) is Ok <==> tpl.media is Some && tpl.duration is Some && t.usable
            && p.total is Some && 1 <= t.count <= 100_000,
        outlined(p, tpl, t) matches Err(e) ==> e is Unsupported,
        outlined(p, tpl, t) matches Ok(o) ==> {
            &&& o.segments.len() == t.count
            &&& forall|i: int|
                0 <= i < o.segments.len() ==> #[trigger] o.segments[i] == filled(
                    tpl.media->0,
                    (tpl.start_number + i) as nat,
                    p.id,
                )
            &&& o.init is Some <==> tpl.initialization is Some
            &&& tpl.initialization matches Some(i) ==> o.init == Some(
                filled(i, tpl.start_number, p.id),
            )
        },
{
}

/// The stream of a representation with a segment list has every segment of the
/// list, in order, and its init fragment, each resolved against its base.
pub proof fn listed_segments_are_all_there(url: Seq<char>, p: PlanView, t: Timing, base: Seq<char>)
    requires
        !p.blank,
        p.seg_urls.len() > 0,
        chained(url, p.bases) == Ok::<Seq<char>, ErrorView>(base),
    ensures
        stream_of(url, p, t) matches Ok(found) ==> {
            &&& found is Some
            &&& found->0.id == p.id
            &&& found->0.bandwidth == p.bandwidth
            &&& found->0.mime == p.mime
            &&& found->0.segments.len() == p.seg_urls.len()
            &&& forall|i: int|
                0 <= i < p.seg_urls.len() ==> urls::resolved(base, #[trigger] p.seg_urls[i]) == Ok::<
                    Seq<char>,
                    ErrorView,
                >(found->0.segments[i])
            &&& found->0.init is Some <==> p.init is Some
            &&& p.init matches Some(i) ==> urls::resolved(base, i) == Ok::<Seq<char>, ErrorView>(
                found->0.init->0,
            )
        },
{
    references_are_resolved_in_order(base, p.seg_urls);
    if let Ok(found) = stream_of(url, p, t) {
        assert forall|i: int| 0 <= i < p.seg_urls.len() implies urls::resolved(
            base,
            #[trigger] p.seg_urls[i],
        ) == Ok::<Seq<char>, ErrorView>(found->0.segments[i]) by {
            assert(found->0.segments[i] == found->0.segments[i]);
        }
    }
}

/// The stream of a representation with a template and no list has every segment
/// that the template stands for, in order, and its init fragment, each resolved
/// against its base.
pub proof fn template_segments_are_all_there(
    url: Seq<char>,
    p: PlanView,
    t: Timing,
    base: Seq<char>,
    tpl: TplView,
)
    requires
        !p.blank,
        p.seg_urls.len() == 0,
        p.tpl == Some(tpl),
        chained(url, p.bases) == Ok::<Seq<char>, ErrorView>(base),
    ensures
        stream_of(url, p, t) matches Ok(found) ==> {
            &&& found is Some
            &&& found->0.id == p.id
            &&& found->0.bandwidth == p.bandwidth
            &&& found->0.mime == p.mime
            &&& tpl.media is Some
            &&& found->0.segments.len() == t.count
            &&& forall|i: int|
                0 <= i < t.count ==> urls::resolved(
                    base,
                    filled(tpl.media->0, (tpl.start_number + i) as nat, p.id),
                ) == Ok::<Seq<char>, ErrorView>(#[trigger] found->0.segments[i])
            &&& found->0.init is Some <==> tpl.initialization is Some
            &&& tpl.initialization matches Some(i) ==> urls::resolved(
                base,
                filled(i, tpl.start_number, p.id),
            ) == Ok::<Seq<char>, ErrorView>(found->0.init->0)
        },
{
    template_segments_are_numbered_on(p, tpl, t);
    if let Ok(o) = outlined(p, tpl, t) {
        references_are_resolved_in_order(base, o.segments);
        if let Ok(found) = stream_of(url, p, t) {
            assert forall|i: int| 0 <= i < t.count implies urls::resolved(
                base,
                filled(tpl.media->0, (tpl.start_number + i) as nat, p.id),
            ) == Ok::<Seq<char>, ErrorView>(#[trigger] found->0.segments[i]) by {
                assert(o.segments[i] == filled(
                    tpl.media->0,
                    (tpl.start_number + i) as nat,
                    p.id,
                ));
            }
        }
    }
}

/// A representation with neither a list nor a template is the file at its base;
/// a blank one has no stream.
pub proof fn base_is_the_file(url: Seq<char>, p: PlanView, t: Timing, base: Seq<char>)
    requires
        p.seg_urls.len() == 0,
        p.tpl is None,
        chained(url, p.bases) == Ok::<Seq<char>, ErrorView>(base),
    ensures
        p.blank ==> stream_of(url, p, t) == Ok::<Option<StreamView>, ErrorView>(None),
        !p.blank && p.init is None ==> stream_of(url, p, t) == Ok::<Option<StreamView>, ErrorView>(
            Some(
                StreamView {
                    id: p.id,
                    bandwidth: p.bandwidth,
                    mime: p.mime,
                    init: None,
                    segments: seq![base],
                },
            ),
        ),
{
}

/// A manifest has one stream for each representation that is not blank, in
/// their order, or else an error.
pub proof fn representations_are_streams_in_order(
    url: Seq<char>,
    plans: Seq<PlanView>,
    t: Seq<Timing>,
)
    requires
        forall|i: int| 0 <= i < plans.len() ==> !(#[trigger] plans[i]).blank,
    ensures
        mpd_outcome(url, plans, None, t) matches Ok(s) ==> {
            &&& s.len() == plans.len()
            &&& forall|i: int|
                0 <= i < plans.len() ==> stream_of(url, #[trigger] plans[i], t[i]) == Ok::<
                    Option<StreamView>,
                    ErrorView,
                >(Some(s[i]))
        },
        mpd_outcome(url, plans, None, t) is Ok <==> forall|i: int|
            0 <= i < plans.len() ==> stream_of(url, #[trigger] plans[i], t[i]) is Ok,
    decreases plans.len(),
{
    if plans.len() > 0 {
        let init = plans.drop_last();
        let n = plans.len() - 1;
        assert forall|i: int| 0 <= i < init.len() implies !(#[trigger] init[i]).blank by {
            assert(init[i] == plans[i]);
        }
        representations_are_streams_in_order(url, init, t);
        assert(plans.last() == plans[n]);
        lemma_not_blank(url, plans[n], t[n]);
        if forall|i: int|
            0 <= i < plans.len() ==> stream_of(url, #[trigger] plans[i], t[i]) is Ok {
            assert forall|i: int| 0 <= i < init.len() implies stream_of(
                url,
                #[trigger] init[i],
                t[i],
            ) is Ok by {
                assert(init[i] == plans[i]);
            }
        }
        if let Ok(s) = streams_of(url, plans, t) {
            let done = streams_of(url, init, t)->Ok_0;
            assert forall|i: int| 0 <= i < plans.len() implies stream_of(
                url,
                #[trigger] plans[i],
                t[i],
            ) == Ok::<Option<StreamView>, ErrorView>(Some(s[i])) by {
                if i < n {
                    assert(init[i] == plans[i]);
                    assert(s[i] == done[i]);
                }
            }
        }
    }
}

proof fn lemma_not_blank(url: Seq<char>, p: PlanView, t: Timing)
    requires
        !p.blank,
    ensures
        stream_of(url, p, t) matches Ok(s) ==> s is Some,
{
}

} // verus!
