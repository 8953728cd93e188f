//! HTTP probing and (segmented) downloading: what is asked of a server, what
//! its replies mean, and which parts of a file are still to be fetched.

use vstd::prelude::*;

use crate::error::{concat, CcdmError, ErrorView};
use crate::names::{self, name_from_url};
use crate::segmented::{self, plan_segments};
use crate::text::{
    self, append, chars_of, contains, decimal_of, find_text, lowered, parse_number, parts,
    string_of, stripped, trimmed, until, CharClass,
};
use crate::urls::{self, parse_url, UrlParts, UrlView};

verus! {

/// The name under which requests are made.
pub const USER_AGENT: &'static str = "ccdm/0.1.0";

/// Seconds to wait for a connection.
pub const CONNECT_TIMEOUT_SECS: u64 = 15;

/// Seconds to wait for a request as a whole.
pub const TIMEOUT_SECS: u64 = 3600;

/// The range of the one byte that is asked for when probing.
pub const PROBE_RANGE: &'static str = "bytes=0-0";

/// The headers of a reply that matter here, as far as they are text.
#[derive(Debug, Clone)]
pub struct Headers {
    pub content_length: Option<String>,
    pub accept_ranges: Option<String>,
    pub content_range: Option<String>,
    pub content_disposition: Option<String>,
    pub content_type: Option<String>,
}

/// The texts of [`Headers`].
pub struct HeadersView {
    pub content_length: Option<Seq<char>>,
    pub accept_ranges: Option<Seq<char>>,
    pub content_range: Option<Seq<char>>,
    pub content_disposition: Option<Seq<char>>,
    pub content_type: Option<Seq<char>>,
}

impl View for Headers {
    type V = HeadersView;

    open spec fn view(&self) -> HeadersView {
        HeadersView {
            content_length: text::opt_view(self.content_length),
            accept_ranges: text::opt_view(self.accept_ranges),
            content_range: text::opt_view(self.content_range),
            content_disposition: text::opt_view(self.content_disposition),
            content_type: text::opt_view(self.content_type),
        }
    }
}

/// A reply of a server, without its body.
#[derive(Debug, Clone)]
pub struct Reply {
    /// URL after redirects.
    pub url: String,
    /// The status as it is shown to a user, e.g. `404 Not Found`.
    pub status: String,
    /// The status is one of success.
    pub success: bool,
    /// The status is `206 Partial Content`.
    pub partial: bool,
    pub headers: Headers,
}

/// The contents of a [`Reply`].
pub struct ReplyView {
    pub url: Seq<char>,
    pub status: Seq<char>,
    pub success: bool,
    pub partial: bool,
    pub headers: HeadersView,
}

impl View for Reply {
    type V = ReplyView;

    open spec fn view(&self) -> ReplyView {
        ReplyView {
            url: self.url@,
            status: self.status@,
            success: self.success,
            partial: self.partial,
            headers: self.headers@,
        }
    }
}

/// What a probe learned about a URL.
#[derive(Debug, Clone)]
pub struct ProbeResult {
    /// URL after redirects.
    pub final_url: String,
    /// Best-guess file name.
    pub file_name: String,
    /// Total size, when the server reveals it.
    pub total_bytes: Option<u64>,
    /// Whether `Range` requests work (needed for segmenting/resume).
    pub supports_ranges: bool,
    /// MIME type, when advertised.
    pub content_type: Option<String>,
}

/// The contents of a [`ProbeResult`].
#[verifier::ext_equal]
pub struct ProbeView {
    pub final_url: Seq<char>,
    pub file_name: Seq<char>,
    pub total_bytes: Option<nat>,
    pub supports_ranges: bool,
    pub content_type: Option<Seq<char>>,
}

impl View for ProbeResult {
    type V = ProbeView;

    open spec fn view(&self) -> ProbeView {
        ProbeView {
            final_url: self.final_url@,
            file_name: self.file_name@,
            total_bytes: text::opt_nat(self.total_bytes),
            supports_ranges: self.supports_ranges,
            content_type: text::opt_view(self.content_type),
        }
    }
}

/// The number in a `Content-Length` header.
pub open spec fn length_in(value: Option<Seq<char>>) -> Option<nat> {
    match value {
        Some(v) => text::number(text::trim(v), u64::MAX as nat),
        None => None,
    }
}

/// The number in a `Content-Length` header.
pub fn content_length_of(value: Option<&str>) -> (r: Option<u64>)
    ensures
        text::opt_nat(r) == length_in(text::str_view(value)),
{
    match value {
        Some(v) => parse_number(trimmed(chars_of(v).as_slice()), u64::MAX),
        None => None,
    }
}

/// Whether an `Accept-Ranges` header promises byte ranges.
pub open spec fn ranges_promised(value: Option<Seq<char>>) -> bool {
    match value {
        Some(v) => text::occurs(text::lower(v), "bytes"@),
        None => false,
    }
}

/// Whether an `Accept-Ranges` header promises byte ranges.
pub fn accepts_ranges(value: Option<&str>) -> (r: bool)
    ensures
        r == ranges_promised(text::str_view(value)),
{
    match value {
        Some(v) => contains(lowered(chars_of(v).as_slice()).as_slice(), "bytes"),
        None => false,
    }
}

/// The total size in a `Content-Range` header.
pub open spec fn total_in(value: Option<Seq<char>>) -> Option<nat> {
    match value {
        Some(v) => {
            let list = text::split(v, CharClass::One('/'));
            if list.len() > 1 {
                text::number(text::trim(list[1]), u64::MAX as nat)
            } else {
                None
            }
        },
        None => None,
    }
}

/// Parse `Content-Range: bytes 0-0/12345` -> `12345`.
pub fn content_range_total(value: Option<&str>) -> (r: Option<u64>)
    ensures
        text::opt_nat(r) == total_in(text::str_view(value)),
{
    match value {
        Some(v) => {
            let all = chars_of(v);
            let list = parts(all.as_slice(), CharClass::One('/'));
            let ghost seen = text::slice_views(list@);
            if list.len() > 1 {
                assert(seen[1] == list@[1]@);
                parse_number(trimmed(list[1]), u64::MAX)
            } else {
                None
            }
        },
        None => None,
    }
}

/// The file name behind `filename*=` in a `Content-Disposition` header, up to the
/// next semicolon: the third of the parts between single quotes, or all where
/// there are fewer, without double quotes around it.
pub open spec fn encoded_name(v: Seq<char>) -> Seq<char> {
    match text::find(v, "filename*="@) {
        Some(at) => {
            let rest = text::trim(
                text::before(v.skip(at + "filename*="@.len()), CharClass::One(';')),
            );
            let list = text::split(rest, CharClass::One('\''));
            let name = if list.len() > 2 {
                list[2]
            } else {
                rest
            };
            text::trim(text::strip(text::trim(name), CharClass::One('"')))
        },
        None => Seq::empty(),
    }
}

/// Where a quoted text ends, `s` being what follows its opening quote: at the
/// first quote that no backslash precedes, or at the end of `s`; `escaped` says
/// whether a backslash precedes `s`.
pub open spec fn quoted_len(s: Seq<char>, escaped: bool) -> nat
    decreases s.len(),
{
    if s.len() == 0 || (s[0] == '"' && !escaped) {
        0
    } else {
        1 + quoted_len(s.skip(1), s[0] == '\\')
    }
}

fn until_quote(s: &[char]) -> (r: &[char])
    ensures
        r@ == s@.take(quoted_len(s@, false) as int),
{
    let n: usize = s.len();
    let mut i: usize = 0;
    let mut escaped = false;
    assert(s@.skip(0) =~= s@);
    while i < n && (s[i] != '"' || escaped)
        invariant
            n == s@.len(),
            i <= n,
            quoted_len(s@, false) == i + quoted_len(s@.skip(i as int), escaped),
        decreases n - i,
    {
        assert(s@.skip(i as int).skip(1) =~= s@.skip(i + 1));
        escaped = s[i] == '\\';
        i = i + 1;
    }
    &s[0..i]
}

/// The file name behind `filename=` in a `Content-Disposition` header: what
/// stands in double quotes, backslashes kept, or else up to the next semicolon.
pub open spec fn plain_name(v: Seq<char>) -> Seq<char> {
    match text::find(v, "filename="@) {
        Some(at) => {
            let rest = text::trim(v.skip(at + "filename="@.len()));
            if rest.len() > 0 && rest[0] == '"' {
                rest.skip(1).take(quoted_len(rest.skip(1), false) as int)
            } else {
                text::trim(text::before(rest, CharClass::One(';')))
            }
        },
        None => Seq::empty(),
    }
}

/// The file name in a `Content-Disposition` header, the encoded form first.
pub open spec fn name_in(value: Option<Seq<char>>) -> Option<Seq<char>> {
    match value {
        Some(v) => if encoded_name(v).len() > 0 {
            Some(encoded_name(v))
        } else if plain_name(v).len() > 0 {
            Some(plain_name(v))
        } else {
            None
        },
        None => None,
    }
}

/// Parse `Content-Disposition: attachment; filename="x.zip"`
/// (also handles RFC 5987 `filename*=UTF-8''x.zip`).
pub fn disposition_filename(value: Option<&str>) -> (r: Option<String>)
    ensures
        text::opt_view(r) == name_in(text::str_view(value)),
{
    let v = match value {
        Some(v) => v,
        None => {
            return None;
        },
    };
    let all = chars_of(v);
    let s = all.as_slice();
    let n: usize = s.len();
    proof {
        text::lemma_find(s@, "filename*="@);
        text::lemma_find(s@, "filename="@);
        reveal_strlit("filename*=");
        reveal_strlit("filename=");
    }
    if let Some(at) = find_text(s, "filename*=") {
        let rest = trimmed(until(&s[at + 10..n], CharClass::One(';')));
        let list = parts(rest, CharClass::One('\''));
        let ghost seen = text::slice_views(list@);
        let name = if list.len() > 2 {
            assert(seen[2] == list@[2]@);
            list[2]
        } else {
            rest
        };
        let name = trimmed(stripped(trimmed(name), CharClass::One('"')));
        assert(name@ == encoded_name(v@));
        if name.len() > 0 {
            return Some(string_of(name));
        }
    }
    assert(encoded_name(v@).len() == 0);
    match find_text(s, "filename=") {
        None => None,
        Some(at) => {
            let rest = trimmed(&s[at + 9..n]);
            let name = if rest.len() > 0 && rest[0] == '"' {
                until_quote(&rest[1..rest.len()])
            } else {
                trimmed(until(rest, CharClass::One(';')))
            };
            assert(name@ == plain_name(v@));
            if name.len() > 0 {
                Some(string_of(name))
            } else {
                None
            }
        },
    }
}

proof fn lemma_no_overlap(p: Seq<char>, pat: Seq<char>, mark: Seq<char>, rest: Seq<char>, j: int)
    requires
        0 <= j < p.len(),
        pat.len() > 0,
        mark.len() > 0,
        forall|k: int| 0 < k < pat.len() ==> #[trigger] pat[k] != mark[0],
        !text::stands_at(p, pat, j),
    ensures
        !text::stands_at(p + mark + rest, pat, j),
{
    let v = p + mark + rest;
    if text::stands_at(v, pat, j) {
        if j + pat.len() <= p.len() {
            assert forall|k: int| 0 <= k < pat.len() implies p[j + k] == #[trigger] pat[k] by {
                assert(v[j + k] == pat[k]);
            }
        } else {
            let k = p.len() - j;
            assert(v[j + k] == pat[k]);
            assert(v[p.len() as int] == mark[0]);
        }
    }
}

proof fn lemma_found_behind(p: Seq<char>, pat: Seq<char>, rest: Seq<char>)
    requires
        pat.len() > 0,
        forall|k: int| 0 < k < pat.len() ==> #[trigger] pat[k] != pat[0],
        forall|j: int| !#[trigger] text::stands_at(p, pat, j),
    ensures
        text::find(p + pat + rest, pat) == Some(p.len() as int),
        (p + pat + rest).skip(p.len() as int + pat.len()) == rest,
{
    let v = p + pat + rest;
    assert forall|j: int| 0 <= j < p.len() implies !#[trigger] text::stands_at(v, pat, j) by {
        lemma_no_overlap(p, pat, pat, rest, j);
    }
    text::lemma_found_behind(p, pat, rest);
    assert(v.skip(p.len() as int + pat.len()) =~= rest);
}

proof fn lemma_plain_at(p: Seq<char>, rest: Seq<char>)
    requires
        forall|j: int| !#[trigger] text::stands_at(p, "filename="@, j),
    ensures
        text::find(p + "filename="@ + rest, "filename="@) == Some(p.len() as int),
        (p + "filename="@ + rest).skip(p.len() as int + "filename="@.len()) == rest,
{
    reveal_strlit("filename=");
    lemma_found_behind(p, "filename="@, rest);
}

proof fn lemma_no_encoded(p: Seq<char>, rest: Seq<char>)
    requires
        forall|j: int| !#[trigger] text::stands_at(p, "filename*="@, j),
        forall|j: int| !#[trigger] text::stands_at(rest, "filename*="@, j),
    ensures
        encoded_name(p + "filename="@ + rest).len() == 0,
{
    let pat = "filename*="@;
    let mark = "filename="@;
    reveal_strlit("filename=");
    reveal_strlit("filename*=");
    let v = p + mark + rest;
    assert forall|j: int| !#[trigger] text::stands_at(v, pat, j) by {
        if text::stands_at(v, pat, j) {
            if j < p.len() {
                lemma_no_overlap(p, pat, mark, rest, j);
            } else if j == p.len() {
                assert(v[j + 8] == pat[8]);
                assert(v[p.len() as int + 8] == mark[8]);
            } else if j < p.len() + 9 {
                assert(v[j + 0] == pat[0]);
                let k = j - p.len();
                assert(v[j] == mark[k]);
            } else {
                let i = j - p.len() - 9;
                assert forall|k: int| 0 <= k < pat.len() implies rest[i + k] == #[trigger] pat[k] by {
                    assert(v[j + k] == pat[k]);
                }
                assert(text::stands_at(rest, pat, i));
            }
        }
    }
    text::first_place_is_found(v, pat);
}

proof fn lemma_quoted_len(n: Seq<char>, t: Seq<char>, escaped: bool)
    requires
        forall|i: int|
            0 < i < n.len() ==> (#[trigger] n[i] == '"' ==> n[i - 1] == '\\'),
        n.len() > 0 && n[0] == '"' ==> escaped,
        n.len() > 0 ==> n[n.len() - 1] != '\\',
        n.len() == 0 ==> !escaped,
    ensures
        quoted_len(n + (seq!['"'] + t), escaped) == n.len(),
    decreases n.len(),
{
    let s = n + (seq!['"'] + t);
    if n.len() > 0 {
        let m = n.skip(1);
        assert forall|i: int| 0 < i < m.len() implies (#[trigger] m[i] == '"' ==> m[i - 1]
            == '\\') by {
            assert(m[i] == n[i + 1]);
            assert(m[i - 1] == n[i]);
        }
        assert(m.len() > 0 ==> m[0] == n[1] && m[m.len() - 1] == n[n.len() - 1]);
        assert(s[0] == n[0]);
        assert(s.skip(1) =~= m + (seq!['"'] + t));
        lemma_quoted_len(m, t, n[0] == '\\');
    } else {
        assert(s[0] == '"');
    }
}

/// A file name in double quotes is taken whole, white space, semicolons and
/// escaped quotes in it too: it is what stands between the quotes, whatever
/// stands before the `filename=` and behind the closing quote, as long as no
/// encoded name does.
pub proof fn quoted_name_is_whole(p: Seq<char>, n: Seq<char>, t: Seq<char>)
    requires
        n.len() > 0,
        forall|i: int|
            0 <= i < n.len() ==> (#[trigger] n[i] == '"' ==> i > 0 && n[i - 1] == '\\'),
        n[n.len() - 1] != '\\',
        forall|j: int| !#[trigger] text::stands_at(p, "filename="@, j),
        forall|j: int| !#[trigger] text::stands_at(p, "filename*="@, j),
        forall|j: int| !#[trigger] text::stands_at(n, "filename*="@, j),
        forall|j: int| !#[trigger] text::stands_at(t, "filename*="@, j),
    ensures
        name_in(Some(p + "filename="@ + seq!['"'] + n + seq!['"'] + t)) == Some(n),
        name_in(Some(p + "filename="@ + seq!['"'] + n + seq!['"'])) == Some(n),
{
    lemma_quoted_name(p, n, t);
    reveal_strlit("filename*=");
    assert forall|j: int| !#[trigger] text::stands_at(Seq::<char>::empty(), "filename*="@, j) by {}
    lemma_quoted_name(p, n, Seq::empty());
    assert(p + "filename="@ + seq!['"'] + n + seq!['"'] + Seq::<char>::empty() =~= p + "filename="@
        + seq!['"'] + n + seq!['"']);
}

proof fn lemma_quoted_name(p: Seq<char>, n: Seq<char>, t: Seq<char>)
    requires
        n.len() > 0,
        forall|i: int|
            0 <= i < n.len() ==> (#[trigger] n[i] == '"' ==> i > 0 && n[i - 1] == '\\'),
        n[n.len() - 1] != '\\',
        forall|j: int| !#[trigger] text::stands_at(p, "filename="@, j),
        forall|j: int| !#[trigger] text::stands_at(p, "filename*="@, j),
        forall|j: int| !#[trigger] text::stands_at(n, "filename*="@, j),
        forall|j: int| !#[trigger] text::stands_at(t, "filename*="@, j),
    ensures
        name_in(Some(p + "filename="@ + seq!['"'] + n + seq!['"'] + t)) == Some(n),
{
    let rest = seq!['"'] + n + seq!['"'] + t;
    let v = p + "filename="@ + seq!['"'] + n + seq!['"'] + t;
    assert(v =~= p + "filename="@ + rest);
    lemma_quotes_hide_nothing(n, t);
    lemma_no_encoded(p, rest);
    lemma_quoted_plain(v, p, n, t);
}

proof fn lemma_quotes_hide_nothing(n: Seq<char>, t: Seq<char>)
    requires
        forall|j: int| !#[trigger] text::stands_at(n, "filename*="@, j),
        forall|j: int| !#[trigger] text::stands_at(t, "filename*="@, j),
    ensures
        forall|j: int|
            !#[trigger] text::stands_at(seq!['"'] + n + seq!['"'] + t, "filename*="@, j),
{
    let pat = "filename*="@;
    reveal_strlit("filename*=");
    let rest = seq!['"'] + n + seq!['"'] + t;
    assert forall|j: int| !#[trigger] text::stands_at(rest, pat, j) by {
        if text::stands_at(rest, pat, j) {
            let end = n.len() + 1;
            if j == 0 {
                assert(rest[j + 0] == pat[0]);
            } else if j + 10 <= end {
                assert forall|k: int| 0 <= k < pat.len() implies n[j - 1 + k]
                    == #[trigger] pat[k] by {
                    assert(rest[j + k] == pat[k]);
                }
                assert(text::stands_at(n, pat, j - 1));
            } else if j <= end {
                let k = end - j;
                assert(rest[j + k] == pat[k]);
                assert(rest[end as int] == '"');
            } else {
                let i = j - end - 1;
                assert forall|k: int| 0 <= k < pat.len() implies t[i + k] == #[trigger] pat[k] by {
                    assert(rest[j + k] == pat[k]);
                }
                assert(text::stands_at(t, pat, i));
            }
        }
    }
}

proof fn lemma_quoted_plain(v: Seq<char>, p: Seq<char>, n: Seq<char>, t: Seq<char>)
    requires
        v == p + "filename="@ + (seq!['"'] + n + seq!['"'] + t),
        forall|i: int|
            0 <= i < n.len() ==> (#[trigger] n[i] == '"' ==> i > 0 && n[i - 1] == '\\'),
        n.len() > 0,
        n[n.len() - 1] != '\\',
        forall|j: int| !#[trigger] text::stands_at(p, "filename="@, j),
    ensures
        plain_name(v) == n,
{
    let rest = seq!['"'] + n + seq!['"'] + t;
    lemma_plain_at(p, rest);
    text::trimmed_is_the_core(rest);
    let (a, b) = choose|i: int, j: int|
        {
            &&& 0 <= i <= j <= rest.len()
            &&& text::trim(rest) == #[trigger] rest.subrange(i, j)
            &&& text::blank(rest.take(i))
            &&& text::blank(rest.skip(j))
        };
    let close = n.len() + 1;
    assert(a == 0) by {
        if a > 0 {
            assert(rest.take(a)[0] == '"');
        }
    }
    assert(b > close) by {
        if b <= close {
            assert(rest.skip(b)[close - b] == '"');
        }
    }
    let core = text::trim(rest);
    let u = rest.subrange(close as int + 1, b);
    assert(core[0] == '"');
    assert(core.skip(1) =~= n + (seq!['"'] + u));
    lemma_quoted_len(n, u, false);
    assert(core.skip(1).take(n.len() as int) =~= n);
}

/// A file name without quotes is taken whole, up to the next semicolon or to the
/// end of the header, without the white space around it.
pub proof fn bare_name_is_whole(p: Seq<char>, a: Seq<char>, n: Seq<char>, b: Seq<char>, t: Seq<char>)
    requires
        n.len() > 0,
        n[0] != '"',
        text::free_of(n, CharClass::One(';')),
        !text::is_space(n[0]),
        !text::is_space(n[n.len() - 1]),
        text::blank(a),
        text::blank(b),
        forall|j: int| !#[trigger] text::stands_at(p, "filename="@, j),
        forall|j: int| !#[trigger] text::stands_at(p, "filename*="@, j),
        forall|j: int| !#[trigger] text::stands_at(a + n + b, "filename*="@, j),
        forall|j: int| !#[trigger] text::stands_at(a + n + b + seq![';'] + t, "filename*="@, j),
    ensures
        name_in(Some(p + "filename="@ + a + n + b)) == Some(n),
        name_in(Some(p + "filename="@ + a + n + b + seq![';'] + t)) == Some(n),
{
    let short = a + n + b;
    assert(p + "filename="@ + a + n + b =~= p + "filename="@ + short);
    lemma_no_encoded(p, short);
    lemma_plain_at(p, short);
    text::trimming_keeps_the_core(a, n, b);
    text::trimming_keeps_the_core(Seq::empty(), n, b);
    text::cut_at_the_first(n, ';', Seq::empty(), CharClass::One(';'));
    let long = short + seq![';'] + t;
    assert(p + "filename="@ + a + n + b + seq![';'] + t =~= p + "filename="@ + long);
    lemma_no_encoded(p, long);
    lemma_plain_at(p, long);
    text::trimmed_is_the_core(long);
    let (i, j) = choose|i: int, j: int|
        {
            &&& 0 <= i <= j <= long.len()
            &&& text::trim(long) == #[trigger] long.subrange(i, j)
            &&& text::blank(long.take(i))
            &&& text::blank(long.skip(j))
        };
    let at = a.len() as int;
    let semi = short.len() as int;
    assert(long[at] == n[0]);
    assert(long[semi] == ';');
    assert(i <= at) by {
        if i > at {
            assert(long.take(i)[at] == n[0]);
        }
    }
    assert(j > semi) by {
        if j <= semi {
            assert(long.skip(j)[semi - j] == ';');
        }
    }
    let core = text::trim(long);
    assert(core[0] == long[i]);
    assert(i == at) by {
        if i < at {
            assert(long[i] == a[i]);
            assert(text::is_space(a[i]));
        }
    }
    let u = long.subrange(semi + 1, j);
    let nb = n + b;
    assert(core =~= nb + seq![';'] + u);
    assert forall|k: int| 0 <= k < nb.len() implies !CharClass::One(';').has(#[trigger] nb[k]) by {
        if k < n.len() {
            assert(nb[k] == n[k]);
        } else {
            assert(nb[k] == b[k - n.len()]);
            assert(text::is_space(b[k - n.len()]));
        }
    }
    text::cut_at_the_first(nb, ';', u, CharClass::One(';'));
    assert(Seq::<char>::empty() + n + b =~= nb);
}

/// An encoded file name is taken whole: what stands behind the character set and
/// the language, up to the next semicolon or to the end of the header.
pub proof fn encoded_name_is_whole(
    p: Seq<char>,
    charset: Seq<char>,
    language: Seq<char>,
    n: Seq<char>,
    t: Seq<char>,
)
    requires
        forall|j: int| !#[trigger] text::stands_at(p, "filename*="@, j),
        charset.len() > 0,
        !text::is_space(charset[0]),
        text::free_of(charset, CharClass::Either('\'', ';')),
        text::free_of(language, CharClass::Either('\'', ';')),
        text::free_of(n, CharClass::Either('\'', ';')),
        n.len() > 0,
        !text::is_space(n[0]) && n[0] != '"',
        !text::is_space(n[n.len() - 1]) && n[n.len() - 1] != '"',
    ensures
        ({
            let v = p + "filename*="@ + charset + seq!['\''] + language + seq!['\''] + n;
            &&& name_in(Some(v)) == Some(n)
            &&& name_in(Some(v + seq![';'] + t)) == Some(n)
        }),
{
    let rest = charset + seq!['\''] + language + seq!['\''] + n;
    let v = p + "filename*="@ + charset + seq!['\''] + language + seq!['\''] + n;
    lemma_encoded_parts(charset, language, n);
    text::cut_at_the_first(rest, ';', t, CharClass::One(';'));
    assert(v =~= p + "filename*="@ + rest);
    lemma_encoded_at(p, rest);
    assert(v + seq![';'] + t =~= p + "filename*="@ + (rest + seq![';'] + t));
    lemma_encoded_at(p, rest + seq![';'] + t);
}

proof fn lemma_encoded_parts(charset: Seq<char>, language: Seq<char>, n: Seq<char>)
    requires
        charset.len() > 0,
        !text::is_space(charset[0]),
        text::free_of(charset, CharClass::Either('\'', ';')),
        text::free_of(language, CharClass::Either('\'', ';')),
        text::free_of(n, CharClass::Either('\'', ';')),
        n.len() > 0,
        !text::is_space(n[0]) && n[0] != '"',
        !text::is_space(n[n.len() - 1]) && n[n.len() - 1] != '"',
    ensures
        ({
            let rest = charset + seq!['\''] + language + seq!['\''] + n;
            let list = text::split(rest, CharClass::One('\''));
            &&& text::free_of(rest, CharClass::One(';'))
            &&& text::trim(rest) == rest
            &&& list.len() == 3
            &&& list[2] == n
        }),
        text::trim(n) == n,
        text::strip(n, CharClass::One('"')) == n,
{
    let quote = CharClass::One('\'');
    let rest = charset + seq!['\''] + language + seq!['\''] + n;
    assert forall|k: int| 0 <= k < rest.len() implies !CharClass::One(';').has(
        #[trigger] rest[k],
    ) by {
        let c = charset.len();
        let l = c + 1 + language.len();
        if k < c {
            assert(rest[k] == charset[k]);
            assert(!CharClass::Either('\'', ';').has(charset[k]));
        } else if c < k < l {
            assert(rest[k] == language[k - c - 1]);
            assert(!CharClass::Either('\'', ';').has(language[k - c - 1]));
        } else if k > l {
            assert(rest[k] == n[k - l - 1]);
            assert(!CharClass::Either('\'', ';').has(n[k - l - 1]));
        }
    }
    assert(rest[0] == charset[0]);
    assert(rest[rest.len() - 1] == n[n.len() - 1]);
    text::trimming_keeps_the_core(Seq::empty(), rest, Seq::empty());
    text::trimming_keeps_the_core(Seq::empty(), n, Seq::empty());
    assert forall|k: int| 0 <= k < charset.len() implies !quote.has(#[trigger] charset[k]) by {
        assert(!CharClass::Either('\'', ';').has(charset[k]));
    }
    assert forall|k: int| 0 <= k < language.len() implies !quote.has(#[trigger] language[k]) by {
        assert(!CharClass::Either('\'', ';').has(language[k]));
    }
    assert forall|k: int| 0 <= k < n.len() implies !quote.has(#[trigger] n[k]) by {
        assert(!CharClass::Either('\'', ';').has(n[k]));
    }
    let tail = language + seq!['\''] + n;
    assert(rest =~= charset + seq!['\''] + tail);
    text::split_at_the_first(charset, '\'', tail, quote);
    text::split_at_the_first(language, '\'', n, quote);
    text::split_at_the_first(n, '\'', Seq::empty(), quote);
    assert(seq![charset] + (seq![language] + seq![n]) =~= seq![charset, language, n]);
}

proof fn lemma_encoded_at(p: Seq<char>, rest: Seq<char>)
    requires
        forall|j: int| !#[trigger] text::stands_at(p, "filename*="@, j),
    ensures
        text::find(p + "filename*="@ + rest, "filename*="@) == Some(p.len() as int),
        (p + "filename*="@ + rest).skip(p.len() as int + "filename*="@.len()) == rest,
{
    reveal_strlit("filename*=");
    lemma_found_behind(p, "filename*="@, rest);
}

/// A header without either form of a file name gives none.
pub proof fn no_name_is_made_up(v: Seq<char>)
    requires
        forall|j: int| !#[trigger] text::stands_at(v, "filename="@, j),
        forall|j: int| !#[trigger] text::stands_at(v, "filename*="@, j),
    ensures
        name_in(Some(v)) is None,
        name_in(None) is None,
{
    text::first_place_is_found(v, "filename="@);
    text::first_place_is_found(v, "filename*="@);
}

/// A `Content-Length` header gives the number that it writes, with or without
/// white space around it, and one that writes none gives none.
pub proof fn length_reads_back(a: Seq<char>, n: nat, b: Seq<char>, junk: Seq<char>)
    requires
        text::blank(a),
        text::blank(b),
        n <= u64::MAX,
        exists|i: int|
            0 <= i < junk.len() && !('0' <= #[trigger] junk[i] <= '9') && junk[i] != '+'
                && !text::is_space(junk[i]),
    ensures
        length_in(Some(a + text::decimal(n) + b)) == Some(n),
        length_in(Some(junk)) is None,
        length_in(None) is None,
{
    text::decimal_reads_back(n);
    let d = text::decimal(n);
    assert('0' <= d[0] <= '9' && '0' <= d[d.len() - 1] <= '9');
    text::trimming_keeps_the_core(a, d, b);
    assert(text::number(d, u64::MAX as nat) == Some(n));
    let i = choose|i: int|
        0 <= i < junk.len() && !('0' <= #[trigger] junk[i] <= '9') && junk[i] != '+'
            && !text::is_space(junk[i]);
    text::trimmed_is_the_core(junk);
    let (x, y) = choose|x: int, y: int|
        {
            &&& 0 <= x <= y <= junk.len()
            &&& text::trim(junk) == #[trigger] junk.subrange(x, y)
            &&& text::blank(junk.take(x))
            &&& text::blank(junk.skip(y))
        };
    assert(x <= i) by {
        if i < x {
            assert(junk.take(x)[i] == junk[i]);
        }
    }
    assert(i < y) by {
        if i >= y {
            assert(junk.skip(y)[i - y] == junk[i]);
        }
    }
    assert(text::trim(junk)[i - x] == junk[i]);
    text::only_digits_make_a_number(text::trim(junk), u64::MAX as nat);
}

/// A `Content-Range` header gives the total behind its slash, and none where
/// there is no slash or no number behind it.
pub proof fn range_total_reads_back(p: Seq<char>, n: nat)
    requires
        text::free_of(p, CharClass::One('/')),
        n <= u64::MAX,
    ensures
        total_in(Some(p + seq!['/'] + text::decimal(n))) == Some(n),
        total_in(Some(p + seq!['/', '*'])) is None,
        total_in(Some(p)) is None,
        total_in(None) is None,
{
    let slash = CharClass::One('/');
    let d = text::decimal(n);
    text::decimal_reads_back(n);
    assert forall|i: int| 0 <= i < d.len() implies !slash.has(#[trigger] d[i]) by {
        assert('0' <= d[i] <= '9');
    }
    assert('0' <= d[0] <= '9' && '0' <= d[d.len() - 1] <= '9');
    text::split_at_the_first(p, '/', d, slash);
    text::split_at_the_first(d, '/', d, slash);
    text::trimming_keeps_the_core(Seq::empty(), d, Seq::empty());
    assert(text::number(d, u64::MAX as nat) == Some(n));
    assert((seq![p] + seq![d])[1] == d);
    let star = seq!['*'];
    assert(p + seq!['/', '*'] =~= p + seq!['/'] + star);
    text::split_at_the_first(p, '/', star, slash);
    text::split_at_the_first(star, '/', star, slash);
    assert((seq![p] + seq![star])[1] == star);
    text::trimming_keeps_the_core(Seq::empty(), star, Seq::empty());
    text::only_digits_make_a_number(star, u64::MAX as nat);
    assert(star[0] == '*');
}

/// An `Accept-Ranges` header promises ranges exactly where the word stands in
/// it, in any case; without the header nothing is promised.
pub proof fn promised_ranges_are_named(v: Seq<char>)
    requires
        text::is_ascii(v),
    ensures
        ranges_promised(Some(v)) <==> exists|i: int|
            text::stands_at(text::ascii_lower(v), "bytes"@, i),
        !ranges_promised(None),
{
    text::what_stands_somewhere_occurs(text::lower(v), "bytes"@);
}

/// A MIME type is what stands before the parameters, whole, without the white
/// space around it.
pub proof fn mime_type_is_whole(
    a: Seq<char>,
    m: Seq<char>,
    b: Seq<char>,
    parameters: Seq<char>,
)
    requires
        text::blank(a),
        text::blank(b),
        m.len() > 0,
        !text::is_space(m[0]),
        !text::is_space(m[m.len() - 1]),
        text::free_of(m, CharClass::One(';')),
    ensures
        mime_in(Some(a + m + b)) == Some(m),
        mime_in(Some(a + m + b + seq![';'] + parameters)) == Some(m),
        mime_in(None) is None,
{
    let s = a + m + b;
    assert forall|k: int| 0 <= k < s.len() implies !CharClass::One(';').has(#[trigger] s[k]) by {
        if k < a.len() {
            assert(s[k] == a[k] && text::is_space(a[k]));
        } else if k < a.len() + m.len() {
            assert(s[k] == m[k - a.len()]);
        } else {
            let x = k - a.len() - m.len();
            assert(s[k] == b[x] && text::is_space(b[x]));
        }
    }
    text::cut_at_the_first(s, ';', parameters, CharClass::One(';'));
    text::trimming_keeps_the_core(a, m, b);
}

/// The MIME type in a `Content-Type` header, without its parameters.
pub open spec fn mime_in(value: Option<Seq<char>>) -> Option<Seq<char>> {
    match value {
        Some(v) => {
            let mime = text::trim(text::before(v, CharClass::One(';')));
            if mime.len() > 0 {
                Some(mime)
            } else {
                None
            }
        },
        None => None,
    }
}

/// The MIME type in a `Content-Type` header, without its parameters.
pub fn mime_type(value: Option<&str>) -> (r: Option<String>)
    ensures
        text::opt_view(r) == mime_in(text::str_view(value)),
{
    match value {
        Some(v) => {
            let all = chars_of(v);
            let mime = trimmed(until(all.as_slice(), CharClass::One(';')));
            if mime.len() > 0 {
                Some(string_of(mime))
            } else {
                None
            }
        },
        None => None,
    }
}

pub(crate) fn text_of(s: &Option<String>) -> (r: Option<&str>)
    ensures
        text::str_view(r) == text::opt_view(*s),
{
    match s {
        Some(t) => Some(t.as_str()),
        None => None,
    }
}

impl ReplyView {
    /// The name of the file: the one that the server gives, else the one that
    /// the URL suggests, which was parsed to `parsed`.
    pub open spec fn file_name(self, parsed: Result<UrlView, Seq<char>>) -> Seq<char> {
        match name_in(self.headers.content_disposition) {
            Some(name) => name,
            None => names::guessed(parsed),
        }
    }

    /// What a successful answer to `HEAD` says, where it says the size or
    /// promises ranges.
    pub open spec fn from_head(self, parsed: Result<UrlView, Seq<char>>) -> Option<ProbeView> {
        let total = length_in(self.headers.content_length);
        let ranges = ranges_promised(self.headers.accept_ranges);
        if self.success && (total is Some || ranges) {
            Some(
                ProbeView {
                    final_url: self.url,
                    file_name: self.file_name(parsed),
                    total_bytes: total,
                    supports_ranges: ranges,
                    content_type: mime_in(self.headers.content_type),
                },
            )
        } else {
            None
        }
    }

    /// What the answer to the ranged `GET` says. The length of a partial reply is
    /// that of the one byte, not of the file.
    pub open spec fn from_get(self, parsed: Result<UrlView, Seq<char>>) -> Result<
        ProbeView,
        ErrorView,
    > {
        if !self.success && !self.partial {
            Err(ErrorView::Http("probe failed with HTTP "@ + self.status))
        } else {
            Ok(
                ProbeView {
                    final_url: self.url,
                    file_name: self.file_name(parsed),
                    total_bytes: match total_in(self.headers.content_range) {
                        Some(n) => Some(n),
                        None => if self.partial {
                            None
                        } else {
                            length_in(self.headers.content_length)
                        },
                    },
                    supports_ranges: self.partial || ranges_promised(self.headers.accept_ranges),
                    content_type: mime_in(self.headers.content_type),
                },
            )
        }
    }
}

/// What a request was for, in the message of its failure.
#[derive(Debug, Clone, Copy, PartialEq, Eq, Structural)]
pub enum Purpose {
    Probe,
    Download,
    Playlist,
    Segment,
    Release,
}

impl Purpose {
    /// The message of a failure up to the status.
    pub open spec fn failure_text(self) -> Seq<char> {
        match self {
            Purpose::Probe => "probe failed with HTTP "@,
            Purpose::Download => "download failed with HTTP "@,
            Purpose::Playlist => "playlist fetch failed with HTTP "@,
            Purpose::Segment => "segment fetch failed with HTTP "@,
            Purpose::Release => "release check failed with HTTP "@,
        }
    }

    /// The error of a request that was answered with `status`.
    pub fn failed_with(self, status: &str) -> (r: CcdmError)
        ensures
            r@ == ErrorView::Http(self.failure_text() + status@),
    {
        let text = match self {
            Purpose::Probe => "probe failed with HTTP ",
            Purpose::Download => "download failed with HTTP ",
            Purpose::Playlist => "playlist fetch failed with HTTP ",
            Purpose::Segment => "segment fetch failed with HTTP ",
            Purpose::Release => "release check failed with HTTP ",
        };
        CcdmError::Http(concat(text, status))
    }

    /// Whether a request may go on: it was answered with success.
    pub fn check(self, success: bool, status: &str) -> (r: Result<(), CcdmError>)
        ensures
            r is Ok <==> success,
            r matches Err(e) ==> e@ == ErrorView::Http(self.failure_text() + status@),
    {
        if success {
            Ok(())
        } else {
            Err(self.failed_with(status))
        }
    }
}

/// Whether a text that was parsed to `parsed` is a URL at all.
pub fn url_outcome(parsed: Result<UrlParts, String>) -> (r: Result<(), CcdmError>)
    ensures
        (match r {
            Ok(_) => None,
            Err(e) => Some(e@),
        }) == (match urls::parts_view(parsed) {
            Ok(_) => None,
            Err(e) => Some(ErrorView::InvalidUrl(e)),
        }),
{
    match parsed {
        Ok(_) => Ok(()),
        Err(e) => Err(CcdmError::InvalidUrl(e)),
    }
}

/// Whether a text is a URL at all.
pub fn check_url(url: &str) -> (r: Result<(), CcdmError>)
    ensures
        (match r {
            Ok(_) => None,
            Err(e) => Some(e@),
        }) == (match urls::url_parse(url@) {
            Ok(_) => None,
            Err(e) => Some(ErrorView::InvalidUrl(e)),
        }),
{
    url_outcome(parse_url(url))
}

fn name_of(reply: &Reply, parsed: &Result<UrlParts, String>) -> (r: String)
    ensures
        r@ == reply@.file_name(urls::parts_view(*parsed)),
{
    match disposition_filename(text_of(&reply.headers.content_disposition)) {
        Some(name) => name,
        None => name_from_url(parsed),
    }
}

/// What the answer to `HEAD` says, where it is enough, `parsed` being its URL.
pub fn read_head(reply: &Reply, parsed: &Result<UrlParts, String>) -> (r: Option<ProbeResult>)
    ensures
        (match r {
            Some(p) => Some(p@),
            None => None,
        }) == reply@.from_head(urls::parts_view(*parsed)),
{
    if !reply.success {
        return None;
    }
    let total = content_length_of(text_of(&reply.headers.content_length));
    let ranges = accepts_ranges(text_of(&reply.headers.accept_ranges));
    if total.is_some() || ranges {
        Some(
            ProbeResult {
                final_url: reply.url.clone(),
                file_name: name_of(reply, parsed),
                total_bytes: total,
                supports_ranges: ranges,
                content_type: mime_type(text_of(&reply.headers.content_type)),
            },
        )
    } else {
        None
    }
}

/// What the answer to `HEAD` says, where it is enough; else the probe goes on
/// with a ranged `GET`, because many servers/CDNs answer `HEAD` poorly.
pub fn probe_head(reply: &Reply) -> (r: Option<ProbeResult>)
    ensures
        (match r {
            Some(p) => Some(p@),
            None => None,
        }) == reply@.from_head(urls::url_parse(reply@.url)),
{
    read_head(reply, &parse_url(reply.url.as_str()))
}

/// What the answer to the ranged `GET` says, `parsed` being its URL.
pub fn read_get(reply: &Reply, parsed: &Result<UrlParts, String>) -> (r: Result<
    ProbeResult,
    CcdmError,
>)
    ensures
        (match r {
            Ok(p) => Ok(p@),
            Err(e) => Err(e@),
        }) == reply@.from_get(urls::parts_view(*parsed)),
{
    if !reply.success && !reply.partial {
        return Err(Purpose::Probe.failed_with(reply.status.as_str()));
    }
    let total = match content_range_total(text_of(&reply.headers.content_range)) {
        Some(n) => Some(n),
        None => if reply.partial {
            None
        } else {
            content_length_of(text_of(&reply.headers.content_length))
        },
    };
    Ok(
        ProbeResult {
            final_url: reply.url.clone(),
            file_name: name_of(reply, parsed),
            total_bytes: total,
            supports_ranges: reply.partial || accepts_ranges(text_of(&reply.headers.accept_ranges)),
            content_type: mime_type(text_of(&reply.headers.content_type)),
        },
    )
}

/// What the answer to the ranged `GET` says.
pub fn probe_get(reply: &Reply) -> (r: Result<ProbeResult, CcdmError>)
    ensures
        (match r {
            Ok(p) => Ok(p@),
            Err(e) => Err(e@),
        }) == reply@.from_get(urls::url_parse(reply@.url)),
{
    read_get(reply, &parse_url(reply.url.as_str()))
}

/// The `Range` header that goes on behind `from` bytes.
pub open spec fn open_range(from: nat) -> Seq<char> {
    "bytes="@ + text::decimal(from) + "-"@
}

/// The `Range` header for the bytes from `start` to `end`.
pub open spec fn closed_range(start: nat, end: nat) -> Seq<char> {
    "bytes="@ + text::decimal(start) + "-"@ + text::decimal(end)
}

/// The `Range` header to resume behind `have` bytes; none to begin with.
pub fn resume_header(have: u64) -> (r: Option<String>)
    ensures
        text::opt_view(r) == (if have > 0 {
            Some(open_range(have as nat))
        } else {
            None
        }),
{
    if have > 0 {
        let mut out = chars_of("bytes=");
        append(&mut out, decimal_of(have as u128).as_slice());
        append(&mut out, chars_of("-").as_slice());
        Some(string_of(out.as_slice()))
    } else {
        None
    }
}

/// The `Range` header for the bytes from `start` to `end`.
pub fn range_header(start: u64, end: u64) -> (r: String)
    ensures
        r@ == closed_range(start as nat, end as nat),
{
    let mut out = chars_of("bytes=");
    append(&mut out, decimal_of(start as u128).as_slice());
    append(&mut out, chars_of("-").as_slice());
    append(&mut out, decimal_of(end as u128).as_slice());
    string_of(out.as_slice())
}

/// How a single-connection download goes on after the server's reply.
#[derive(Debug, Clone, Copy, PartialEq, Eq, Structural)]
pub struct ResumePlan {
    /// The file that is there is removed first.
    pub discard: bool,
    /// What comes is appended to the file; else the file begins anew.
    pub append: bool,
    /// Bytes that count as downloaded already.
    pub base: u64,
    /// Size of the whole file, when the server reveals it.
    pub total: Option<u64>,
}

/// What follows from the reply to a download that had `have` bytes: a partial
/// reply is appended to them, any other success replaces them.
pub open spec fn resumed(
    have: u64,
    success: bool,
    partial: bool,
    status: Seq<char>,
    length: Option<u64>,
) -> Result<ResumePlan, ErrorView> {
    if !success && !partial {
        Err(ErrorView::Http("download failed with HTTP "@ + status))
    } else {
        let base = if partial {
            have
        } else {
            0
        };
        Ok(
            ResumePlan {
                discard: have > 0 && !partial,
                append: partial,
                base,
                total: match length {
                    Some(n) => Some((base + n) as u64),
                    None => None,
                },
            },
        )
    }
}

/// How a download that has `have` bytes goes on after the server's reply.
pub fn resume_plan(
    have: u64,
    success: bool,
    partial: bool,
    status: &str,
    length: Option<u64>,
) -> (r: Result<ResumePlan, CcdmError>)
    requires
        partial ==> (length matches Some(n) ==> have + n <= u64::MAX),
    ensures
        (match r {
            Ok(p) => Ok(p),
            Err(e) => Err(e@),
        }) == resumed(have, success, partial, status@, length),
{
    if !success && !partial {
        return Err(Purpose::Download.failed_with(status));
    }
    let base: u64 = if partial {
        have
    } else {
        0
    };
    Ok(
        ResumePlan {
            discard: have > 0 && !partial,
            append: partial,
            base,
            total: match length {
                Some(n) => Some(base + n),
                None => None,
            },
        },
    )
}

/// A resumed download has the whole file: what was there and what the server
/// sends make up the file, whether the server honors the range and sends the
/// rest, or ignores it and sends all.
pub proof fn resumed_file_is_whole(
    file: Seq<u8>,
    have: u64,
    partial: bool,
    status: Seq<char>,
    length: Option<u64>,
)
    requires
        have <= file.len(),
    ensures
        ({
            let plan = resumed(have, true, partial, status, length)->Ok_0;
            let sent = if partial {
                file.skip(have as int)
            } else {
                file
            };
            let kept = if plan.append {
                file.take(have as int)
            } else {
                Seq::empty()
            };
            &&& kept + sent == file
            &&& kept.len() == plan.base
        }),
{
    assert(file.take(have as int) + file.skip(have as int) =~= file);
    assert(Seq::<u8>::empty() + file =~= file);
}

/// The size of a file that is downloaded in segments; `None` where a single
/// connection has to do, because the size is unknown, ranges are unsupported,
/// or one segment is wanted.
pub open spec fn splittable(p: ProbeView, segments: nat) -> Option<nat> {
    match p.total_bytes {
        Some(t) => if t > 0 && p.supports_ranges && segments > 1 {
            Some(t)
        } else {
            None
        },
        None => None,
    }
}

/// The size of a file that is downloaded in segments.
pub fn segmented_total(info: &ProbeResult, segments: usize) -> (r: Option<u64>)
    ensures
        text::opt_nat(r) == splittable(info@, segments as nat),
{
    match info.total_bytes {
        Some(t) => if t > 0 && info.supports_ranges && segments > 1 {
            Some(t)
        } else {
            None
        },
        None => None,
    }
}

/// A range that is still to be fetched, and the part that it belongs to.
#[derive(Debug, Clone, Copy, PartialEq, Eq, Structural)]
pub struct Pending {
    pub part: usize,
    pub start: u64,
    pub end: u64,
}

/// What is to be done for the parts of a download.
#[derive(Debug)]
pub struct PartPlan {
    /// Bytes that are there already.
    pub downloaded: u64,
    /// Parts that hold more than they should and are removed.
    pub stale: Vec<usize>,
    /// What is still to be fetched.
    pub pending: Vec<Pending>,
}

/// The contents of a [`PartPlan`].
#[verifier::ext_equal]
pub struct PlanView {
    pub downloaded: nat,
    pub stale: Seq<int>,
    pub pending: Seq<(int, nat, nat)>,
}

impl View for PartPlan {
    type V = PlanView;

    open spec fn view(&self) -> PlanView {
        PlanView {
            downloaded: self.downloaded as nat,
            stale: Seq::new(self.stale@.len(), |i: int| self.stale@[i] as int),
            pending: Seq::new(
                self.pending@.len(),
                |i: int|
                    (
                        self.pending@[i].part as int,
                        self.pending@[i].start as nat,
                        self.pending@[i].end as nat,
                    ),
            ),
        }
    }
}

/// The bytes of a part that are kept: all that are there, unless there are
/// more than the part has.
pub open spec fn usable(range: (nat, nat), have: nat) -> nat {
    if have > range.1 - range.0 + 1 {
        0
    } else {
        have
    }
}

/// What is to be done for the parts of a download that has the lengths `have`
/// on disk: a part that is too long (e.g. the file on the server shrank) is
/// removed and fetched anew, else assembling would corrupt the download; a
/// complete part is kept; any other is fetched from where it ends.
pub open spec fn part_plan(ranges: Seq<(nat, nat)>, have: Seq<nat>) -> PlanView
    decreases ranges.len(),
{
    if ranges.len() == 0 {
        PlanView { downloaded: 0, stale: Seq::empty(), pending: Seq::empty() }
    } else {
        let n = ranges.len() - 1;
        let plan = part_plan(ranges.drop_last(), have);
        let (start, end) = ranges[n];
        let want = end - start + 1;
        let kept = usable(ranges[n], have[n]);
        PlanView {
            downloaded: plan.downloaded + kept,
            stale: if have[n] > want {
                plan.stale.push(n)
            } else {
                plan.stale
            },
            pending: if kept < want {
                plan.pending.push((n, start + kept, end))
            } else {
                plan.pending
            },
        }
    }
}

pub open spec fn lengths_view(v: Seq<u64>) -> Seq<nat> {
    Seq::new(v.len(), |i: int| v[i] as nat)
}

proof fn lemma_downloaded(ranges: Seq<(nat, nat)>, have: Seq<nat>, total: nat)
    requires
        forall|i: int| 0 <= i < ranges.len() ==> (#[trigger] ranges[i]).0 <= ranges[i].1 < total,
    ensures
        part_plan(ranges, have).downloaded <= segmented::covered(ranges),
    decreases ranges.len(),
{
    if ranges.len() > 0 {
        let init = ranges.drop_last();
        assert forall|i: int| 0 <= i < init.len() implies (#[trigger] init[i]).0 <= init[i].1
            < total by {
            assert(init[i] == ranges[i]);
        }
        lemma_downloaded(init, have, total);
    }
}

/// What is to be done for the parts of a file of `total` bytes, downloaded in
/// `segments` segments, when `have` gives the length of each part on disk.
pub fn plan_parts(total: u64, segments: usize, have: &Vec<u64>) -> (r: PartPlan)
    requires
        segments > 0,
        have@.len() == segmented::segment_count(total as nat, segments as nat),
    ensures
        r@ == part_plan(segmented::planned(total as nat, segments as nat), lengths_view(have@)),
{
    let ranges = plan_segments(total, segments);
    let ghost plan = segmented::planned(total as nat, segments as nat);
    let ghost lens = lengths_view(have@);
    proof {
        segmented::lemma_plan_bounds(total as nat, segments as nat);
        segmented::plan_adds_up(total as nat, segments as nat);
    }
    let mut out = PartPlan { downloaded: 0, stale: Vec::new(), pending: Vec::new() };
    let mut i: usize = 0;
    assert(out@ =~= part_plan(plan.take(0), lens));
    while i < ranges.len()
        invariant
            i <= ranges@.len(),
            ranges@.len() == have@.len(),
            plan == segmented::ranges_view(ranges@),
            lens == lengths_view(have@),
            forall|j: int| 0 <= j < plan.len() ==> (#[trigger] plan[j]).0 <= plan[j].1 < total,
            segmented::covered(plan) == total,
            out@ == part_plan(plan.take(i as int), lens),
        decreases ranges.len() - i,
    {
        let (start, end) = ranges[i];
        let ghost next = plan.take(i + 1);
        assert(plan[i as int].0 == start && plan[i as int].1 == end);
        assert(next.drop_last() =~= plan.take(i as int));
        assert(next[i as int] == plan[i as int]);
        assert(lens[i as int] == have@[i as int]);
        proof {
            assert forall|j: int| 0 <= j < next.len() implies (#[trigger] next[j]).0 <= next[j].1
                < total by {
                assert(next[j] == plan[j]);
            }
            lemma_downloaded(next, lens, total as nat);
            lemma_covered_grows(plan, i + 1);
        }
        let want: u64 = end - start + 1;
        let there: u64 = have[i];
        let ghost was = out@;
        if there > want {
            out.stale.push(i);
            out.pending.push(Pending { part: i, start, end });
            assert(out@.stale =~= was.stale.push(i as int));
            assert(out@.pending =~= was.pending.push((i as int, start as nat, end as nat)));
        } else if there == want {
            out.downloaded = out.downloaded + want;
        } else {
            out.downloaded = out.downloaded + there;
            out.pending.push(Pending { part: i, start: start + there, end });
            assert(out@.pending =~= was.pending.push(
                (i as int, (start + there) as nat, end as nat),
            ));
        }
        assert(out@ =~= part_plan(next, lens));
        i = i + 1;
    }
    assert(plan.take(i as int) =~= plan);
    out
}

proof fn lemma_covered_grows(ranges: Seq<(nat, nat)>, n: int)
    requires
        0 <= n <= ranges.len(),
        forall|i: int| 0 <= i < ranges.len() ==> (#[trigger] ranges[i]).0 <= ranges[i].1,
    ensures
        segmented::covered(ranges.take(n)) <= segmented::covered(ranges),
    decreases ranges.len(),
{
    if n < ranges.len() {
        let init = ranges.drop_last();
        assert forall|i: int| 0 <= i < init.len() implies (#[trigger] init[i]).0 <= init[i].1 by {
            assert(init[i] == ranges[i]);
        }
        lemma_covered_grows(init, n);
        assert(init.take(n) =~= ranges.take(n));
    } else {
        assert(ranges.take(n) =~= ranges);
    }
}

/// The bytes in a list of pending ranges, counted.
pub open spec fn missing(pending: Seq<(int, nat, nat)>) -> int
    decreases pending.len(),
{
    if pending.len() == 0 {
        0
    } else {
        missing(pending.drop_last()) + (pending.last().2 - pending.last().1 + 1)
    }
}

/// Nothing is fetched twice and nothing is left out: the bytes that are there
/// and the bytes that are pending add up to the file.
pub proof fn downloaded_and_pending_add_up(total: nat, max: nat, have: Seq<nat>)
    requires
        max > 0,
    ensures
        ({
            let plan = part_plan(segmented::planned(total, max), have);
            plan.downloaded + missing(plan.pending) == total
        }),
{
    segmented::plan_adds_up(total, max);
    segmented::lemma_plan_bounds(total, max);
    lemma_missing(segmented::planned(total, max), have);
}

proof fn lemma_missing(ranges: Seq<(nat, nat)>, have: Seq<nat>)
    requires
        forall|i: int| 0 <= i < ranges.len() ==> (#[trigger] ranges[i]).0 <= ranges[i].1,
    ensures
        part_plan(ranges, have).downloaded + missing(part_plan(ranges, have).pending) == segmented::covered(
            ranges,
        ),
    decreases ranges.len(),
{
    if ranges.len() > 0 {
        let init = ranges.drop_last();
        assert forall|i: int| 0 <= i < init.len() implies (#[trigger] init[i]).0 <= init[i].1 by {
            assert(init[i] == ranges[i]);
        }
        lemma_missing(init, have);
        let n = ranges.len() - 1;
        let (start, end) = ranges[n];
        let before = part_plan(init, have);
        let kept = usable(ranges[n], have[n]);
        let item = (n, start + kept, end);
        assert(before.pending.push(item).drop_last() =~= before.pending);
        assert(before.pending.push(item).last() == item);
    }
}

/// The bytes of part `i` after the pending ranges have been appended to what
/// was kept of it.
pub open spec fn part_after(
    file: Seq<u8>,
    range: (nat, nat),
    i: int,
    have: nat,
    pending: Seq<(int, nat, nat)>,
) -> Seq<u8> {
    file.subrange(range.0 as int, range.0 as int + usable(range, have)) + fetched(file, i, pending)
}

/// What the pending ranges of part `i` bring.
pub open spec fn fetched(file: Seq<u8>, i: int, pending: Seq<(int, nat, nat)>) -> Seq<u8>
    decreases pending.len(),
{
    if pending.len() == 0 {
        Seq::empty()
    } else if pending.last().0 == i {
        fetched(file, i, pending.drop_last()) + file.subrange(
            pending.last().1 as int,
            pending.last().2 as int + 1,
        )
    } else {
        fetched(file, i, pending.drop_last())
    }
}

/// The parts one behind the other.
pub open spec fn concatenated(parts: Seq<Seq<u8>>) -> Seq<u8>
    decreases parts.len(),
{
    if parts.len() == 0 {
        Seq::empty()
    } else {
        concatenated(parts.drop_last()) + parts.last()
    }
}

/// A segmented download that is resumed gives the file: when every part that
/// is not too long holds the beginning of its range, the pending ranges are
/// fetched and appended, and the parts are put together in order.
pub proof fn resumed_parts_make_the_file(file: Seq<u8>, max: nat, have: Seq<nat>)
    requires
        max > 0,
    ensures
        ({
            let ranges = segmented::planned(file.len(), max);
            let plan = part_plan(ranges, have);
            concatenated(
                Seq::new(
                    ranges.len(),
                    |i: int| part_after(file, ranges[i], i, have[i], plan.pending),
                ),
            ) == file
        }),
{
    let ranges = segmented::planned(file.len(), max);
    let plan = part_plan(ranges, have);
    segmented::lemma_plan_bounds(file.len(), max);
    let whole = Seq::new(
        ranges.len(),
        |i: int| part_after(file, ranges[i], i, have[i], plan.pending),
    );
    assert forall|i: int| 0 <= i < ranges.len() implies (#[trigger] whole[i]) == file.subrange(
        ranges[i].0 as int,
        ranges[i].1 as int + 1,
    ) by {
        lemma_fetched(file, ranges, have, i);
        let a = ranges[i].0 as int;
        let b = a + usable(ranges[i], have[i]);
        let c = ranges[i].1 as int + 1;
        assert(file.subrange(a, b) + file.subrange(b, c) =~= file.subrange(a, c));
        if b == c {
            assert(file.subrange(a, b) + Seq::<u8>::empty() =~= file.subrange(a, c));
        }
    }
    lemma_concatenated(file, ranges, whole);
    segmented::parts_make_the_file(file, max);
}

proof fn lemma_fetched(file: Seq<u8>, ranges: Seq<(nat, nat)>, have: Seq<nat>, i: int)
    requires
        0 <= i,
        forall|j: int| 0 <= j < ranges.len() ==> (#[trigger] ranges[j]).0 <= ranges[j].1,
    ensures
        fetched(file, i, part_plan(ranges, have).pending) == (if i < ranges.len() && usable(
            ranges[i],
            have[i],
        ) < ranges[i].1 - ranges[i].0 + 1 {
            file.subrange(ranges[i].0 as int + usable(ranges[i], have[i]), ranges[i].1 as int + 1)
        } else {
            Seq::empty()
        }),
    decreases ranges.len(),
{
    if ranges.len() > 0 {
        let init = ranges.drop_last();
        assert forall|j: int| 0 <= j < init.len() implies (#[trigger] init[j]).0 <= init[j].1 by {
            assert(init[j] == ranges[j]);
        }
        lemma_fetched(file, init, have, i);
        let n = ranges.len() - 1;
        let before = part_plan(init, have);
        let (start, end) = ranges[n];
        let kept = usable(ranges[n], have[n]);
        let item = (n, start + kept, end);
        assert(before.pending.push(item).drop_last() =~= before.pending);
        assert(before.pending.push(item).last() == item);
        if i < n {
            assert(init[i] == ranges[i]);
        }
        let tail = file.subrange((start + kept) as int, end as int + 1);
        assert(Seq::<u8>::empty() + tail =~= tail);
    }
}

proof fn lemma_concatenated(file: Seq<u8>, ranges: Seq<(nat, nat)>, whole: Seq<Seq<u8>>)
    requires
        whole.len() == ranges.len(),
        forall|i: int|
            0 <= i < ranges.len() ==> (#[trigger] whole[i]) == file.subrange(
                ranges[i].0 as int,
                ranges[i].1 as int + 1,
            ),
    ensures
        concatenated(whole) == segmented::assembled(file, ranges),
    decreases ranges.len(),
{
    if ranges.len() > 0 {
        assert forall|i: int| 0 <= i < ranges.len() - 1 implies (#[trigger] whole.drop_last()[i])
            == file.subrange(
            ranges.drop_last()[i].0 as int,
            ranges.drop_last()[i].1 as int + 1,
        ) by {
            assert(whole.drop_last()[i] == whole[i]);
            assert(ranges.drop_last()[i] == ranges[i]);
        }
        lemma_concatenated(file, ranges.drop_last(), whole.drop_last());
        assert(whole[whole.len() - 1] == whole.last());
    }
}

/// Whether a ranged request was honored.
pub fn check_partial(partial: bool) -> (r: Result<(), CcdmError>)
    ensures
        r is Ok <==> partial,
        r matches Err(e) ==> e@ == ErrorView::RangeNotSupported,
{
    if partial {
        Ok(())
    } else {
        Err(CcdmError::RangeNotSupported)
    }
}

/// How much of a download is done, in whole percent, if the size is known.
pub fn percent(got: u64, total: Option<u64>) -> (r: Option<u64>)
    ensures
        text::opt_nat(r) == (match total {
            Some(t) => if t > 0 {
                Some(
                    ((if got < t {
                        got
                    } else {
                        t
                    }) as nat) * 100 / (t as nat),
                )
            } else {
                None
            },
            None => None,
        }),
        r matches Some(p) ==> p <= 100,
{
    match total {
        Some(t) => if t > 0 {
            let done: u64 = if got < t {
                got
            } else {
                t
            };
            let scaled: u128 = done as u128 * 100;
            let p: u128 = scaled / t as u128;
            assert(p <= 100) by (nonlinear_arith)
                requires
                    p == scaled / (t as u128),
                    scaled == done * 100,
                    done <= t,
                    t > 0,
            ;
            Some(p as u64)
        } else {
            None
        },
        None => None,
    }
}

/// A probe reports what the reply says: the URL that it came from, the size, the
/// MIME type, and whether ranges work. The name is the one that the server
/// gives, and only without one that of the URL. `HEAD` is enough exactly where
/// it succeeds and says the size or promises ranges; a ranged `GET` fails
/// exactly where it is neither a success nor partial. A partial reply shows
/// that ranges work, and its length is not that of the file.
pub proof fn probe_reports_the_reply(r: ReplyView, parsed: Result<UrlView, Seq<char>>)
    ensures
        r.from_head(parsed) is Some <==> r.success && (length_in(r.headers.content_length) is Some
            || ranges_promised(r.headers.accept_ranges)),
        r.from_head(parsed) matches Some(p) ==> {
            &&& p.final_url == r.url
            &&& p.total_bytes == length_in(r.headers.content_length)
            &&& p.supports_ranges == ranges_promised(r.headers.accept_ranges)
            &&& p.content_type == mime_in(r.headers.content_type)
            &&& name_in(r.headers.content_disposition) matches Some(n) ==> p.file_name == n
            &&& name_in(r.headers.content_disposition) is None ==> p.file_name == names::guessed(
                parsed,
            )
        },
        r.from_get(parsed) is Ok <==> r.success || r.partial,
        r.from_get(parsed) matches Ok(p) ==> {
            &&& p.final_url == r.url
            &&& p.content_type == mime_in(r.headers.content_type)
            &&& name_in(r.headers.content_disposition) matches Some(n) ==> p.file_name == n
            &&& name_in(r.headers.content_disposition) is None ==> p.file_name == names::guessed(
                parsed,
            )
            &&& r.partial ==> p.supports_ranges && p.total_bytes == total_in(
                r.headers.content_range,
            )
            &&& !r.partial ==> p.supports_ranges == ranges_promised(r.headers.accept_ranges)
            &&& !r.partial && total_in(r.headers.content_range) is None ==> p.total_bytes
                == length_in(r.headers.content_length)
            &&& total_in(r.headers.content_range) is Some ==> p.total_bytes == total_in(
                r.headers.content_range,
            )
        },
        r.from_get(parsed) matches Err(e) ==> e is Http,
{
}

/// A `Range` header names the unit and the bytes that are meant: the first one,
/// and behind the dash the last one where there is one, each of which reads
/// back.
pub proof fn range_header_reads_back(start: nat, end: nat)
    requires
        start <= u64::MAX,
        end <= u64::MAX,
    ensures
        ({
            let closed = text::split(closed_range(start, end).skip(6), CharClass::One('-'));
            let open = text::split(open_range(start).skip(6), CharClass::One('-'));
            &&& text::stands_at(closed_range(start, end), "bytes="@, 0)
            &&& text::stands_at(open_range(start), "bytes="@, 0)
            &&& closed.len() == 2 && open.len() == 2
            &&& text::number(closed[0], u64::MAX as nat) == Some(start)
            &&& text::number(closed[1], u64::MAX as nat) == Some(end)
            &&& text::number(open[0], u64::MAX as nat) == Some(start)
            &&& open[1].len() == 0
        }),
{
    reveal_strlit("bytes=");
    reveal_strlit("-");
    let dash = CharClass::One('-');
    let a = text::decimal(start);
    let b = text::decimal(end);
    let none = Seq::<char>::empty();
    text::decimal_reads_back(start);
    text::decimal_reads_back(end);
    assert(text::number(a, u64::MAX as nat) == Some(start));
    assert(text::number(b, u64::MAX as nat) == Some(end));
    assert forall|i: int| 0 <= i < a.len() implies !dash.has(#[trigger] a[i]) by {
        assert('0' <= a[i] <= '9');
    }
    assert forall|i: int| 0 <= i < b.len() implies !dash.has(#[trigger] b[i]) by {
        assert('0' <= b[i] <= '9');
    }
    assert(closed_range(start, end).skip(6) =~= a + seq!['-'] + b);
    assert(open_range(start).skip(6) =~= a + seq!['-'] + none);
    text::split_at_the_first(a, '-', b, dash);
    text::split_at_the_first(b, '-', none, dash);
    text::split_at_the_first(a, '-', none, dash);
    text::split_at_the_first(none, '-', none, dash);
    assert(seq![a] + seq![b] =~= seq![a, b]);
    assert(seq![a] + seq![none] =~= seq![a, none]);
}

/// The size of a resumed download is that of the file, where the server says
/// how much it sends: what is kept counts, and what is replaced does not. What
/// is there is removed exactly where it is not appended to.
pub proof fn resumed_download_knows_the_size(
    have: u64,
    success: bool,
    partial: bool,
    status: Seq<char>,
    sent: u64,
)
    requires
        have + sent <= u64::MAX,
    ensures
        match resumed(have, success, partial, status, Some(sent)) {
            Ok(plan) => {
                &&& success || partial
                &&& plan.total == Some((if partial { have + sent } else { sent as int }) as u64)
                &&& plan.append == partial
                &&& plan.base == if partial { have } else { 0 }
                &&& plan.discard <==> have > 0 && !plan.append
            },
            Err(e) => !success && !partial && e is Http,
        },
        resumed(have, success, partial, status, None) matches Ok(plan) ==> plan.total is None,
{
}

/// A file is downloaded in segments exactly where its size is known and not
/// zero, ranges work, and more than one segment is wanted; all of it is then.
pub proof fn segments_need_size_and_ranges(p: ProbeView, segments: nat)
    ensures
        match splittable(p, segments) {
            Some(t) => p.total_bytes == Some(t) && t > 0 && p.supports_ranges && segments > 1,
            None => p.total_bytes is None || p.total_bytes == Some(0nat) || !p.supports_ranges
                || segments <= 1,
        },
{
}

/// A part is removed exactly where it holds more than its range has, and its
/// range is then fetched from its beginning.
pub proof fn too_long_parts_are_fetched_anew(ranges: Seq<(nat, nat)>, have: Seq<nat>, i: int)
    requires
        0 <= i < ranges.len(),
        forall|j: int| 0 <= j < ranges.len() ==> (#[trigger] ranges[j]).0 <= ranges[j].1,
    ensures
        part_plan(ranges, have).stale.contains(i) <==> have[i] > ranges[i].1 - ranges[i].0 + 1,
        have[i] > ranges[i].1 - ranges[i].0 + 1 ==> part_plan(ranges, have).pending.contains(
            (i, ranges[i].0, ranges[i].1),
        ),
        have[i] < ranges[i].1 - ranges[i].0 + 1 ==> part_plan(ranges, have).pending.contains(
            (i, ranges[i].0 + have[i], ranges[i].1),
        ),
    decreases ranges.len(),
{
    let n = ranges.len() - 1;
    let init = ranges.drop_last();
    let before = part_plan(init, have);
    let plan = part_plan(ranges, have);
    lemma_parts_in_order(init, have);
    if i < n {
        assert forall|j: int| 0 <= j < init.len() implies (#[trigger] init[j]).0 <= init[j].1 by {
            assert(init[j] == ranges[j]);
        }
        too_long_parts_are_fetched_anew(init, have, i);
        assert(init[i] == ranges[i]);
        lemma_grown(before.stale, plan.stale);
        lemma_grown(before.pending, plan.pending);
        assert forall|k: int| before.stale.len() <= k < plan.stale.len() implies plan.stale[k]
            == n by {}
    } else {
        if have[n] > ranges[n].1 - ranges[n].0 + 1 {
            assert(plan.stale[before.stale.len() as int] == n);
            assert(plan.pending[before.pending.len() as int] == (n, ranges[n].0, ranges[n].1));
        } else if have[n] < ranges[n].1 - ranges[n].0 + 1 {
            assert(plan.pending[before.pending.len() as int] == (
                n,
                ranges[n].0 + have[n],
                ranges[n].1,
            ));
        }
    }
}

proof fn lemma_grown<A>(before: Seq<A>, after: Seq<A>)
    requires
        before.len() <= after.len() <= before.len() + 1,
        forall|k: int| 0 <= k < before.len() ==> after[k] == #[trigger] before[k],
    ensures
        forall|x: A| before.contains(x) ==> after.contains(x),
        forall|x: A|
            after.contains(x) && !before.contains(x) ==> after.len() == before.len() + 1
                && after[before.len() as int] == x,
{
    assert forall|x: A| before.contains(x) implies after.contains(x) by {
        let k = choose|k: int| 0 <= k < before.len() && before[k] == x;
        assert(after[k] == x);
    }
    assert forall|x: A| after.contains(x) && !before.contains(x) implies after.len()
        == before.len() + 1 && after[before.len() as int] == x by {
        let k = choose|k: int| 0 <= k < after.len() && after[k] == x;
        if k < before.len() {
            assert(before[k] == x);
        }
    }
}

proof fn lemma_parts_in_order(ranges: Seq<(nat, nat)>, have: Seq<nat>)
    ensures
        forall|k: int|
            0 <= k < part_plan(ranges, have).stale.len() ==> 0 <= #[trigger] part_plan(
                ranges,
                have,
            ).stale[k] < ranges.len(),
    decreases ranges.len(),
{
    if ranges.len() > 0 {
        lemma_parts_in_order(ranges.drop_last(), have);
        let before = part_plan(ranges.drop_last(), have);
        assert forall|k: int| 0 <= k < part_plan(ranges, have).stale.len() implies 0
            <= #[trigger] part_plan(ranges, have).stale[k] < ranges.len() by {
            if k < before.stale.len() {
                assert(part_plan(ranges, have).stale[k] == before.stale[k]);
            }
        }
    }
}

/// The percentage is rounded down, is full exactly where all has come, and is
/// given exactly where the size is known and not zero.
pub proof fn percent_is_rounded_down(got: u64, total: Option<u64>, r: Option<u64>)
    requires
        call_ensures(percent, (got, total), r),
    ensures
        match r {
            Some(p) => {
                &&& total matches Some(t) && t > 0
                &&& p <= 100
                &&& got < total->0 ==> p * total->0 <= got * 100 < (p + 1) * total->0
                &&& got >= total->0 ==> p == 100
            },
            None => total is None || total == Some(0u64),
        },
{
    if let Some(t) = total {
        if t > 0 {
            let done: nat = if got < t {
                got as nat
            } else {
                t as nat
            };
            let p = r->0 as int;
            let a = done * 100;
            vstd::arithmetic::div_mod::lemma_fundamental_div_mod(a as int, t as int);
            vstd::arithmetic::div_mod::lemma_mod_bound(a as int, t as int);
            assert(t * p == p * t) by (nonlinear_arith);
            assert((p + 1) * t == p * t + t) by (nonlinear_arith);
            if got >= t {
                assert(p == 100) by (nonlinear_arith)
                    requires
                        p * t <= 100 * t < (p + 1) * t,
                        t > 0,
                ;
            }
        }
    }
}

/// The name that is read of a header with a name in double quotes is that name,
/// whole.
pub proof fn read_name_is_whole(
    header: &str,
    p: Seq<char>,
    n: Seq<char>,
    t: Seq<char>,
    r: Option<String>,
)
    requires
        call_ensures(disposition_filename, (Some(header),), r),
        header@ == p + "filename="@ + seq!['"'] + n + seq!['"'] + t,
        n.len() > 0,
        forall|i: int|
            0 <= i < n.len() ==> (#[trigger] n[i] == '"' ==> i > 0 && n[i - 1] == '\\'),
        n[n.len() - 1] != '\\',
        forall|j: int| !#[trigger] text::stands_at(p, "filename="@, j),
        forall|j: int| !#[trigger] text::stands_at(p, "filename*="@, j),
        forall|j: int| !#[trigger] text::stands_at(n, "filename*="@, j),
        forall|j: int| !#[trigger] text::stands_at(t, "filename*="@, j),
    ensures
        r is Some,
        r->0@ == n,
{
    quoted_name_is_whole(p, n, t);
    assert(text::opt_view(r) == name_in(Some(header@)));
}

/// A download that has nothing yet asks for all of the file, and one that has
/// some asks for what stands behind that.
pub proof fn resumed_request_goes_on_behind_what_is_there(have: u64, r: Option<String>)
    requires
        call_ensures(resume_header, (have,), r),
    ensures
        have == 0 <==> r is None,
        r matches Some(h) ==> {
            let list = text::split(h@.skip(6), CharClass::One('-'));
            &&& text::stands_at(h@, "bytes="@, 0)
            &&& list.len() == 2
            &&& text::number(list[0], u64::MAX as nat) == Some(have as nat)
            &&& list[1].len() == 0
        },
{
    range_header_reads_back(have as nat, have as nat);
    if have == 0 {
        assert(text::opt_view(r) is None);
    } else {
        assert(text::opt_view(r) == Some(open_range(have as nat)));
    }
}

/// What is on disk of a part and what is fetched for it make the part: all that is
/// on disk, unless the part is removed, and behind it the bytes that are
/// pending.
pub proof fn kept_and_fetched_make_each_part(file: Seq<u8>, max: nat, have: Seq<nat>, i: int)
    requires
        max > 0,
        0 <= i < segmented::planned(file.len(), max).len(),
    ensures
        ({
            let ranges = segmented::planned(file.len(), max);
            let plan = part_plan(ranges, have);
            let start = ranges[i].0 as int;
            let end = ranges[i].1 as int + 1;
            let kept: nat = if plan.stale.contains(i) {
                0
            } else {
                have[i]
            };
            &&& start + kept <= end
            &&& file.subrange(start, start + kept) + fetched(file, i, plan.pending)
                == file.subrange(start, end)
        }),
{
    let ranges = segmented::planned(file.len(), max);
    let plan = part_plan(ranges, have);
    segmented::lemma_plan_bounds(file.len(), max);
    assert forall|j: int| 0 <= j < ranges.len() implies (#[trigger] ranges[j]).0
        <= ranges[j].1 by {
        assert(ranges[j].0 <= ranges[j].1 < file.len());
    }
    assert(ranges[i].0 <= ranges[i].1 < file.len());
    too_long_parts_are_fetched_anew(ranges, have, i);
    lemma_fetched(file, ranges, have, i);
    let start = ranges[i].0 as int;
    let end = ranges[i].1 as int + 1;
    let kept: nat = if plan.stale.contains(i) {
        0
    } else {
        have[i]
    };
    assert(kept == usable(ranges[i], have[i]));
    assert(file.subrange(start, start + kept) + file.subrange(start + kept, end)
        =~= file.subrange(start, end));
    if start + kept == end {
        assert(file.subrange(start, start + kept) + Seq::<u8>::empty() =~= file.subrange(
            start,
            end,
        ));
    }
}

/// The pending ranges come in the order of their parts, at most one for a part,
/// and none for a part that is complete.
pub proof fn complete_parts_are_not_fetched(ranges: Seq<(nat, nat)>, have: Seq<nat>)
    requires
        forall|j: int| 0 <= j < ranges.len() ==> (#[trigger] ranges[j]).0 <= ranges[j].1,
    ensures
        ({
            let pending = part_plan(ranges, have).pending;
            &&& forall|k: int|
                0 <= k < pending.len() ==> {
                    let i = (#[trigger] pending[k]).0;
                    &&& 0 <= i < ranges.len()
                    &&& have[i] != ranges[i].1 - ranges[i].0 + 1
                    &&& pending[k].2 == ranges[i].1
                }
            &&& forall|j: int, k: int|
                0 <= j < k < pending.len() ==> (#[trigger] pending[j]).0 < (
                #[trigger] pending[k]).0
        }),
    decreases ranges.len(),
{
    if ranges.len() > 0 {
        let init = ranges.drop_last();
        let n = ranges.len() - 1;
        assert forall|j: int| 0 <= j < init.len() implies (#[trigger] init[j]).0 <= init[j].1 by {
            assert(init[j] == ranges[j]);
        }
        complete_parts_are_not_fetched(init, have);
        let before = part_plan(init, have).pending;
        let pending = part_plan(ranges, have).pending;
        assert forall|k: int| 0 <= k < pending.len() implies ({
            let i = (#[trigger] pending[k]).0;
            &&& 0 <= i < ranges.len()
            &&& have[i] != ranges[i].1 - ranges[i].0 + 1
            &&& pending[k].2 == ranges[i].1
        }) by {
            if k < before.len() {
                assert(pending[k] == before[k]);
                assert(init[before[k].0] == ranges[before[k].0]);
            } else {
                assert(ranges[n].0 <= ranges[n].1);
            }
        }
        assert forall|j: int, k: int| 0 <= j < k < pending.len() implies (
        #[trigger] pending[j]).0 < (#[trigger] pending[k]).0 by {
            assert(pending[j] == before[j]);
            if k < before.len() {
                assert(pending[k] == before[k]);
            }
        }
    }
}

} // verus!
