//! URLs: what the `url` crate reports of one, and what is decided from it.

use vstd::prelude::*;

use crate::error::{CcdmError, ErrorView};
use crate::text;

verus! {

/// What is read of a parsed URL.
#[derive(Debug, Clone)]
pub struct UrlParts {
    /// The normalized URL.
    pub text: String,
    /// The host, for a URL that has one.
    pub host: Option<String>,
    /// The path between its slashes, for a URL whose path begins with one.
    pub segments: Option<Vec<String>>,
}

/// The texts of a [`UrlParts`].
pub struct UrlView {
    pub text: Seq<char>,
    pub host: Option<Seq<char>>,
    pub segments: Option<Seq<Seq<char>>>,
}

impl View for UrlParts {
    type V = UrlView;

    open spec fn view(&self) -> UrlView {
        UrlView {
            text: self.text@,
            host: text::opt_view(self.host),
            segments: match self.segments {
                Some(v) => Some(text::views(v@)),
                None => None,
            },
        }
    }
}

pub open spec fn parts_view(r: Result<UrlParts, String>) -> Result<UrlView, Seq<char>> {
    match r {
        Ok(u) => Ok(u@),
        Err(e) => Err(e@),
    }
}

pub open spec fn text_view(r: Result<String, String>) -> Result<Seq<char>, Seq<char>> {
    match r {
        Ok(u) => Ok(u@),
        Err(e) => Err(e@),
    }
}

pub open spec fn url_view(r: Result<String, CcdmError>) -> Result<Seq<char>, ErrorView> {
    match r {
        Ok(u) => Ok(u@),
        Err(e) => Err(e@),
    }
}

/// What `url::Url::parse` reports of a text: the parts of the URL, or the
/// message of the error.
pub uninterp spec fn url_parse(input: Seq<char>) -> Result<UrlView, Seq<char>>;

/// What `url::Url::join` reports of a reference against a base URL given as
/// text: the resulting URL, or the message of the error.
pub uninterp spec fn url_join(base: Seq<char>, reference: Seq<char>) -> Result<
    Seq<char>,
    Seq<char>,
>;

/// `url::Url::parse`, read through `as_str`, `host_str` and `path_segments`;
/// an error is given by its message. The result depends on the text alone.
#[verifier::external_body]
pub(crate) fn parse_url(input: &str) -> (r: Result<UrlParts, String>)
    ensures
        parts_view(r) == url_parse(input@),
{
    match url::Url::parse(input) {
        Ok(u) => Ok(
            UrlParts {
                text: u.as_str().to_string(),
                host: u.host_str().map(str::to_string),
                segments: u.path_segments().map(|s| s.map(str::to_string).collect()),
            },
        ),
        Err(e) => Err(e.to_string()),
    }
}

/// `url::Url::join` on the URL that `url::Url::parse` makes of `base`; an
/// error of either is given by its message, and a base that does not parse
/// is answered with the message of its own error. The result depends on the
/// two texts alone.
#[verifier::external_body]
pub(crate) fn join_url(base: &str, reference: &str) -> (r: Result<String, String>)
    ensures
        text_view(r) == url_join(base@, reference@),
        url_parse(base@) matches Err(e) ==> r is Err && r->Err_0@ == e,
{
    match url::Url::parse(base).and_then(|b| b.join(reference)) {
        Ok(u) => Ok(u.as_str().to_string()),
        Err(e) => Err(e.to_string()),
    }
}

/// The URL of a reference that names its own host.
pub open spec fn absolute(parsed: Result<UrlView, Seq<char>>) -> Option<Seq<char>> {
    match parsed {
        Ok(u) => if u.host is Some {
            Some(u.text)
        } else {
            None
        },
        Err(_) => None,
    }
}

/// `reference` against `base`: a reference with a host stands for itself,
/// any other is joined to the base.
pub open spec fn resolved(base: Seq<char>, reference: Seq<char>) -> Result<Seq<char>, ErrorView> {
    match absolute(url_parse(reference)) {
        Some(u) => Ok(u),
        None => joined_url(url_join(base, reference)),
    }
}

/// A join's outcome as an outcome of the engine.
pub open spec fn joined_url(r: Result<Seq<char>, Seq<char>>) -> Result<Seq<char>, ErrorView> {
    match r {
        Ok(u) => Ok(u),
        Err(e) => Err(ErrorView::InvalidUrl(e)),
    }
}

/// The URL of a parsed reference that names its own host.
pub fn absolute_url(parsed: Result<UrlParts, String>) -> (r: Option<String>)
    ensures
        text::opt_view(r) == absolute(parts_view(parsed)),
{
    match parsed {
        Ok(u) => if u.host.is_some() {
            Some(u.text)
        } else {
            None
        },
        Err(_) => None,
    }
}

/// A join's outcome as an outcome of the engine.
pub fn join_outcome(r: Result<String, String>) -> (o: Result<String, CcdmError>)
    ensures
        url_view(o) == joined_url(text_view(r)),
{
    match r {
        Ok(u) => Ok(u),
        Err(e) => Err(CcdmError::InvalidUrl(e)),
    }
}

/// Resolve `reference` (relative or absolute) against `base`.
pub fn resolve_url(base: &str, reference: &str) -> (r: Result<String, CcdmError>)
    ensures
        url_view(r) == resolved(base@, reference@),
{
    match absolute_url(parse_url(reference)) {
        Some(u) => Ok(u),
        None => join_outcome(join_url(base, reference)),
    }
}

/// A reference that names its own host stands for itself, whatever the base; any
/// other is what joining it to the base gives, and a join that fails is a bad
/// URL.
pub proof fn references_with_hosts_stand_alone(base: Seq<char>, reference: Seq<char>)
    ensures
        url_parse(reference) matches Ok(u) ==> u.host is Some ==> resolved(base, reference) == Ok::<
            Seq<char>,
            ErrorView,
        >(u.text),
        (url_parse(reference) matches Ok(u) ==> u.host is None) ==> match url_join(
            base,
            reference,
        ) {
            Ok(u) => resolved(base, reference) == Ok::<Seq<char>, ErrorView>(u),
            Err(e) => resolved(base, reference) == Err::<Seq<char>, ErrorView>(
                ErrorView::InvalidUrl(e),
            ),
        },
{
}

} // verus!
