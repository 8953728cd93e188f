//! Self-update check against releases: the newest release, and whether it is
//! newer than this one.

use vstd::prelude::*;

use crate::error::{CcdmError, ErrorView};
use crate::json::{self, parse_json, text_at, Json};
use crate::text::{
    self, after_run, append, chars_of, parse_number, parts, string_of, trimmed, CharClass,
};

verus! {

/// What the newest release looks like.
#[derive(Debug, Clone)]
pub struct ReleaseInfo {
    pub tag: String,
    pub name: String,
    pub url: String,
}

/// The texts of a [`ReleaseInfo`].
#[verifier::ext_equal]
pub struct ReleaseView {
    pub tag: Seq<char>,
    pub name: Seq<char>,
    pub url: Seq<char>,
}

impl View for ReleaseInfo {
    type V = ReleaseView;

    open spec fn view(&self) -> ReleaseView {
        ReleaseView { tag: self.tag@, name: self.name@, url: self.url@ }
    }
}

/// The media type that is asked for.
pub const RELEASE_MEDIA_TYPE: &'static str = "application/vnd.github+json";

/// Where the newest release of `owner/name` is described.
pub fn release_url(repo: &str) -> (r: String)
    ensures
        r@ == "https://api.github.com/repos/"@ + repo@ + "/releases/latest"@,
{
    let mut out = chars_of("https://api.github.com/repos/");
    append(&mut out, chars_of(repo).as_slice());
    append(&mut out, chars_of("/releases/latest").as_slice());
    string_of(out.as_slice())
}

/// A text, or the empty one where there is none.
pub open spec fn text_or_empty(s: Option<Seq<char>>) -> Seq<char> {
    match s {
        Some(t) => t,
        None => Seq::empty(),
    }
}

/// The release that a tag, a name and a URL make; there is none without a tag.
pub open spec fn release_of(
    tag: Option<Seq<char>>,
    name: Option<Seq<char>>,
    url: Option<Seq<char>>,
) -> Result<ReleaseView, ErrorView> {
    if text_or_empty(tag).len() == 0 {
        Err(ErrorView::Other("no releases found"@))
    } else {
        Ok(
            ReleaseView {
                tag: text_or_empty(tag),
                name: text_or_empty(name),
                url: text_or_empty(url),
            },
        )
    }
}

/// The release that a description names.
pub open spec fn described_release(parsed: Result<Json, Seq<char>>) -> Result<
    ReleaseView,
    ErrorView,
> {
    match parsed {
        Ok(v) => release_of(
            v.text("tag_name"@),
            v.text("name"@),
            v.text("html_url"@),
        ),
        Err(e) => Err(ErrorView::Other(e)),
    }
}

pub open spec fn release_view(r: Result<ReleaseInfo, CcdmError>) -> Result<ReleaseView, ErrorView> {
    match r {
        Ok(i) => Ok(i@),
        Err(e) => Err(e@),
    }
}

fn or_empty(s: Option<&str>) -> (r: String)
    ensures
        r@ == text_or_empty(text::str_view(s)),
{
    match s {
        Some(t) => t.to_string(),
        None => {
            let none: Vec<char> = Vec::new();
            string_of(none.as_slice())
        },
    }
}

/// The release that a tag, a name and a URL make.
pub fn make_release(tag: Option<&str>, name: Option<&str>, url: Option<&str>) -> (r: Result<
    ReleaseInfo,
    CcdmError,
>)
    ensures
        release_view(r) == release_of(text::str_view(tag), text::str_view(name), text::str_view(url)),
{
    let tag = or_empty(tag);
    if chars_of(tag.as_str()).len() == 0 {
        return Err(CcdmError::Other("no releases found".to_string()));
    }
    Ok(ReleaseInfo { tag, name: or_empty(name), url: or_empty(url) })
}

/// The release that a parsed description names.
pub fn read_release(parsed: Result<serde_json::Value, String>) -> (r: Result<
    ReleaseInfo,
    CcdmError,
>)
    ensures
        release_view(r) == described_release(json::parsed_view(parsed)),
{
    match parsed {
        Ok(v) => make_release(text_at(&v, "tag_name"), text_at(&v, "name"), text_at(&v, "html_url")),
        Err(e) => Err(CcdmError::Other(e)),
    }
}

/// The newest release, as the fetched description names it.
pub fn latest_release(text: &str) -> (r: Result<ReleaseInfo, CcdmError>)
    ensures
        release_view(r) == described_release(json::json_parse(text@)),
{
    read_release(parse_json(text))
}

/// The number of a version's part; zero for what is no number.
pub open spec fn part_value(s: Seq<char>) -> nat {
    match text::number(s, u64::MAX as nat) {
        Some(n) => n,
        None => 0,
    }
}

/// The parts of a version between its dots.
pub open spec fn version_parts(s: Seq<char>) -> Seq<Seq<char>> {
    text::split(text::skip_run(text::trim(s), CharClass::One('v')), CharClass::One('.'))
}

/// The numbers of a version, ignoring a leading `v`.
pub open spec fn version(s: Seq<char>) -> Seq<nat> {
    Seq::new(version_parts(s).len(), |i: int| part_value(version_parts(s)[i]))
}

/// The number at the front; zero where there is none.
pub open spec fn front(v: Seq<nat>) -> nat {
    if v.len() > 0 {
        v[0]
    } else {
        0
    }
}

/// What follows the number at the front.
pub open spec fn behind(v: Seq<nat>) -> Seq<nat> {
    if v.len() > 0 {
        v.skip(1)
    } else {
        v
    }
}

/// Whether `latest` is newer than `current`: the first numbers that differ
/// decide, missing ones counting as zero.
pub open spec fn newer(current: Seq<nat>, latest: Seq<nat>) -> bool
    decreases current.len() + latest.len(),
{
    if current.len() == 0 && latest.len() == 0 {
        false
    } else if front(current) != front(latest) {
        front(latest) > front(current)
    } else {
        newer(behind(current), behind(latest))
    }
}

/// No version is newer than itself.
pub proof fn not_newer_than_itself(v: Seq<nat>)
    ensures
        !newer(v, v),
    decreases v.len(),
{
    if v.len() > 0 {
        not_newer_than_itself(behind(v));
    }
}

/// Of two versions one at most is newer.
pub proof fn newer_is_one_way(a: Seq<nat>, b: Seq<nat>)
    requires
        newer(a, b),
    ensures
        !newer(b, a),
    decreases a.len() + b.len(),
{
    if front(a) == front(b) {
        newer_is_one_way(behind(a), behind(b));
    }
}

/// What is newer than a newer version is newer.
pub proof fn newer_carries_on(a: Seq<nat>, b: Seq<nat>, c: Seq<nat>)
    requires
        newer(a, b),
        newer(b, c),
    ensures
        newer(a, c),
    decreases a.len() + b.len() + c.len(),
{
    if front(a) == front(b) && front(b) == front(c) {
        newer_carries_on(behind(a), behind(b), behind(c));
    } else if a.len() == 0 && c.len() == 0 {
        newer_is_one_way(a, b);
    }
}

/// Zeros at the end of a version do not matter.
pub proof fn trailing_zero_is_no_news(a: Seq<nat>, b: Seq<nat>)
    ensures
        newer(a.push(0), b) == newer(a, b),
        newer(a, b.push(0)) == newer(a, b),
    decreases a.len() + b.len(),
{
    let x = a.push(0);
    let y = b.push(0);
    if a.len() == 0 && b.len() == 0 {
        assert(behind(x) =~= Seq::empty());
        assert(behind(y) =~= Seq::empty());
        assert(!newer(behind(x), b));
        assert(!newer(a, behind(y)));
    } else {
        assert(front(x) == front(a));
        assert(front(y) == front(b));
        if a.len() > 0 {
            assert(behind(x) =~= behind(a).push(0));
        } else {
            assert(behind(x) =~= a);
        }
        if b.len() > 0 {
            assert(behind(y) =~= behind(b).push(0));
        } else {
            assert(behind(y) =~= b);
        }
        trailing_zero_is_no_news(behind(a), behind(b));
    }
}

fn numbers(s: &str) -> (r: Vec<u64>)
    ensures
        r@.len() == version(s@).len(),
        forall|i: int| 0 <= i < r@.len() ==> (#[trigger] r@[i]) as nat == version(s@)[i],
{
    let all = chars_of(s);
    let list = parts(after_run(trimmed(all.as_slice()), CharClass::One('v')), CharClass::One('.'));
    let ghost seen = text::slice_views(list@);
    let mut out: Vec<u64> = Vec::new();
    let mut i: usize = 0;
    while i < list.len()
        invariant
            i <= list@.len(),
            seen == text::slice_views(list@),
            seen == version_parts(s@),
            out@.len() == i,
            forall|j: int| 0 <= j < i ==> (#[trigger] out@[j]) as nat == version(s@)[j],
        decreases list.len() - i,
    {
        assert(seen[i as int] == list@[i as int]@);
        let n: u64 = match parse_number(list[i], u64::MAX) {
            Some(n) => n,
            None => 0,
        };
        out.push(n);
        i = i + 1;
    }
    out
}

/// The numbers of `v` from place `i` on.
spec fn from_place(v: Seq<nat>, i: int) -> Seq<nat> {
    if i < v.len() {
        v.skip(i)
    } else {
        Seq::empty()
    }
}

/// Numeric dot-separated compare ignoring a leading `v`
/// (`is_newer("0.8.0", "v0.9")` is true).
pub fn is_newer(current: &str, latest: &str) -> (r: bool)
    ensures
        r == newer(version(current@), version(latest@)),
{
    let a = numbers(current);
    let b = numbers(latest);
    let ghost x = version(current@);
    let ghost y = version(latest@);
    let width: usize = if a.len() > b.len() {
        a.len()
    } else {
        b.len()
    };
    let mut i: usize = 0;
    assert(x.skip(0) =~= x && y.skip(0) =~= y);
    while i < width
        invariant
            a@.len() == x.len(),
            b@.len() == y.len(),
            width >= a@.len() && width >= b@.len(),
            width == a@.len() || width == b@.len(),
            i <= width,
            x == version(current@),
            y == version(latest@),
            forall|j: int| 0 <= j < a@.len() ==> (#[trigger] a@[j]) as nat == x[j],
            forall|j: int| 0 <= j < b@.len() ==> (#[trigger] b@[j]) as nat == y[j],
            newer(x, y) == newer(from_place(x, i as int), from_place(y, i as int)),
        decreases width - i,
    {
        let p: u64 = if i < a.len() {
            a[i]
        } else {
            0
        };
        let q: u64 = if i < b.len() {
            b[i]
        } else {
            0
        };
        assert(p as nat == front(from_place(x, i as int)));
        assert(q as nat == front(from_place(y, i as int)));
        assert(behind(from_place(x, i as int)) =~= from_place(x, i + 1));
        assert(behind(from_place(y, i as int)) =~= from_place(y, i + 1));
        if p != q {
            return q > p;
        }
        i = i + 1;
    }
    false
}

/// The number at a place of a version; zero behind its end.
pub open spec fn number_at(v: Seq<nat>, i: int) -> nat {
    if 0 <= i < v.len() {
        v[i]
    } else {
        0
    }
}

/// A version is newer exactly where the first numbers that differ are greater in
/// it, numbers that are missing counting as zero.
pub proof fn first_difference_decides(current: Seq<nat>, latest: Seq<nat>)
    ensures
        newer(current, latest) <==> exists|i: int|
            {
                &&& 0 <= i
                &&& #[trigger] number_at(latest, i) > number_at(current, i)
                &&& forall|j: int|
                    0 <= j < i ==> #[trigger] number_at(latest, j) == number_at(current, j)
            },
    decreases current.len() + latest.len(),
{
    if current.len() == 0 && latest.len() == 0 {
    } else {
        assert(front(current) == number_at(current, 0));
        assert(front(latest) == number_at(latest, 0));
        if front(current) == front(latest) {
            let a = behind(current);
            let b = behind(latest);
            first_difference_decides(a, b);
            assert forall|i: int| 0 <= i implies number_at(a, i) == #[trigger] number_at(
                current,
                i + 1,
            ) by {}
            assert forall|i: int| 0 <= i implies number_at(b, i) == #[trigger] number_at(
                latest,
                i + 1,
            ) by {}
            if newer(a, b) {
                let i = choose|i: int|
                    {
                        &&& 0 <= i
                        &&& #[trigger] number_at(b, i) > number_at(a, i)
                        &&& forall|j: int|
                            0 <= j < i ==> #[trigger] number_at(b, j) == number_at(a, j)
                    };
                assert(number_at(latest, i + 1) > number_at(current, i + 1));
                assert forall|j: int| 0 <= j < i + 1 implies #[trigger] number_at(latest, j)
                    == number_at(current, j) by {
                    if j > 0 {
                        assert(number_at(b, j - 1) == number_at(latest, j - 1 + 1));
                        assert(number_at(a, j - 1) == number_at(current, j - 1 + 1));
                    }
                }
            }
            if exists|i: int|
                {
                    &&& 0 <= i
                    &&& #[trigger] number_at(latest, i) > number_at(current, i)
                    &&& forall|j: int|
                        0 <= j < i ==> #[trigger] number_at(latest, j) == number_at(current, j)
                } {
                let i = choose|i: int|
                    {
                        &&& 0 <= i
                        &&& #[trigger] number_at(latest, i) > number_at(current, i)
                        &&& forall|j: int|
                            0 <= j < i ==> #[trigger] number_at(latest, j) == number_at(current, j)
                    };
                assert(i > 0);
                assert(number_at(b, i - 1) == number_at(latest, i - 1 + 1));
                assert(number_at(a, i - 1) == number_at(current, i - 1 + 1));
                assert(number_at(b, i - 1) > number_at(a, i - 1));
                assert forall|j: int| 0 <= j < i - 1 implies #[trigger] number_at(b, j)
                    == number_at(a, j) by {
                    assert(number_at(latest, j + 1) == number_at(current, j + 1));
                }
            }
        } else if front(latest) > front(current) {
            assert(number_at(latest, 0) > number_at(current, 0));
        } else {
            assert forall|i: int| 0 <= i && (forall|j: int|
                0 <= j < i ==> #[trigger] number_at(latest, j) == number_at(current, j)) implies !(
            #[trigger] number_at(latest, i) > number_at(current, i)) by {
                if i > 0 {
                    assert(number_at(latest, 0) == number_at(current, 0));
                }
            }
        }
    }
}

/// A version of three numbers between dots has those numbers, with or without a
/// `v` before them and white space around it.
pub proof fn version_has_its_numbers(a: Seq<char>, x: nat, y: nat, z: nat, b: Seq<char>)
    requires
        text::blank(a),
        text::blank(b),
        x <= u64::MAX,
        y <= u64::MAX,
        z <= u64::MAX,
    ensures
        ({
            let s = text::decimal(x) + seq!['.'] + text::decimal(y) + seq!['.'] + text::decimal(z);
            &&& version(a + s + b) == seq![x, y, z]
            &&& version(a + (seq!['v'] + s) + b) == seq![x, y, z]
        }),
{
    let dot = CharClass::One('.');
    let p = text::decimal(x);
    let q = text::decimal(y);
    let r = text::decimal(z);
    lemma_part(x);
    lemma_part(y);
    lemma_part(z);
    let tail = q + seq!['.'] + r;
    let s = p + seq!['.'] + q + seq!['.'] + r;
    assert(s =~= p + seq!['.'] + tail);
    text::split_at_the_first(p, '.', tail, dot);
    text::split_at_the_first(q, '.', r, dot);
    text::split_at_the_first(r, '.', r, dot);
    assert(seq![p] + (seq![q] + seq![r]) =~= seq![p, q, r]);
    assert(s[0] == p[0] && s[s.len() - 1] == r[r.len() - 1]);
    text::trimming_keeps_the_core(a, s, b);
    let v = seq!['v'] + s;
    assert(v[0] == 'v' && v[v.len() - 1] == r[r.len() - 1]);
    text::trimming_keeps_the_core(a, v, b);
    assert(v.skip(1) =~= s);
    assert(text::skip_run(s, CharClass::One('v')) == s);
    assert(text::skip_run(v, CharClass::One('v')) == s);
    assert(version(a + s + b) =~= seq![x, y, z]);
    assert(version(a + v + b) =~= seq![x, y, z]);
}

proof fn lemma_part(n: nat)
    requires
        n <= u64::MAX,
    ensures
        part_value(text::decimal(n)) == n,
        text::free_of(text::decimal(n), CharClass::One('.')),
        text::decimal(n).len() > 0,
        '0' <= text::decimal(n)[0] <= '9',
        '0' <= text::decimal(n)[text::decimal(n).len() - 1] <= '9',
{
    text::decimal_reads_back(n);
    let d = text::decimal(n);
    assert(text::number(d, u64::MAX as nat) == Some(n));
    assert forall|i: int| 0 <= i < d.len() implies !CharClass::One('.').has(#[trigger] d[i]) by {
        assert('0' <= d[i] <= '9');
    }
}

/// A release has the tag, the name and the URL of its description, whole, and the
/// empty text for a name or a URL that is missing; without a tag there is none.
pub proof fn release_is_as_described(v: Json, message: Seq<char>)
    ensures
        described_release(Ok(v)) is Ok <==> (v.text("tag_name"@) matches Some(t) && t.len() > 0),
        described_release(Ok(v)) matches Ok(r) ==> {
            &&& v.text("tag_name"@) == Some(r.tag)
            &&& v.text("name"@) matches Some(n) ==> r.name == n
            &&& v.text("html_url"@) matches Some(u) ==> r.url == u
        },
        described_release(Err(message)) is Err,
{
}

} // verus!
