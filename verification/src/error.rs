//! Error type of the engine.

use vstd::prelude::*;

use crate::text::{append, chars_of, string_of};

verus! {

/// All errors produced by the engine.
#[derive(Debug)]
pub enum CcdmError {
    /// HTTP/client failure (message only, so the type stays small).
    Http(String),
    /// Filesystem failure.
    Io(String),
    /// URL could not be parsed.
    InvalidUrl(String),
    /// Server ignored our `Range` request; resume/segmenting is impossible.
    RangeNotSupported,
    /// Cooperative stop through a cancel flag (pause button). Never retried
    /// automatically: resuming is the user's choice.
    Cancelled,
    /// Media (HLS/DASH) shape that is not supported (encrypted streams, live
    /// manifests, unknown segment schemes). Never retried.
    Unsupported(String),
    /// Anything else (config, state file, ...).
    Other(String),
}

/// The variant and the message of an error.
pub enum ErrorView {
    Http(Seq<char>),
    Io(Seq<char>),
    InvalidUrl(Seq<char>),
    RangeNotSupported,
    Cancelled,
    Unsupported(Seq<char>),
    Other(Seq<char>),
}

impl View for CcdmError {
    type V = ErrorView;

    open spec fn view(&self) -> ErrorView {
        match *self {
            CcdmError::Http(s) => ErrorView::Http(s@),
            CcdmError::Io(s) => ErrorView::Io(s@),
            CcdmError::InvalidUrl(s) => ErrorView::InvalidUrl(s@),
            CcdmError::RangeNotSupported => ErrorView::RangeNotSupported,
            CcdmError::Cancelled => ErrorView::Cancelled,
            CcdmError::Unsupported(s) => ErrorView::Unsupported(s@),
            CcdmError::Other(s) => ErrorView::Other(s@),
        }
    }
}

impl ErrorView {
    /// Network hiccups, filesystem trouble and the rest may pass; a bad URL,
    /// missing range support, a cancel and unsupported media do not.
    pub open spec fn transient(self) -> bool {
        self is Http || self is Io || self is Other
    }

    /// The text shown to a user.
    pub open spec fn text(self) -> Seq<char> {
        match self {
            ErrorView::Http(s) => "http error: "@ + s,
            ErrorView::Io(s) => "io error: "@ + s,
            ErrorView::InvalidUrl(s) => "invalid url: "@ + s,
            ErrorView::RangeNotSupported => "server does not support range requests"@,
            ErrorView::Cancelled => "download cancelled"@,
            ErrorView::Unsupported(s) => "unsupported media: "@ + s,
            ErrorView::Other(s) => s,
        }
    }
}

/// Attempts that one download gets before it counts as failed.
pub const MAX_ATTEMPTS: u32 = 3;

impl CcdmError {
    /// Whether retrying later might succeed (network hiccups, 5xx, ...),
    /// as opposed to permanent problems (bad URL, no range support).
    pub fn is_transient(&self) -> (r: bool)
        ensures
            r == self@.transient(),
    {
        match self {
            CcdmError::Http(_) | CcdmError::Io(_) | CcdmError::Other(_) => true,
            CcdmError::InvalidUrl(_) | CcdmError::RangeNotSupported | CcdmError::Cancelled
            | CcdmError::Unsupported(_) => false,
        }
    }

    /// Whether another attempt follows after `attempt` failed with this error.
    pub fn retries_after(&self, attempt: u32) -> (r: bool)
        ensures
            r == (self@.transient() && attempt < MAX_ATTEMPTS),
    {
        self.is_transient() && attempt < MAX_ATTEMPTS
    }

    /// The text shown to a user.
    pub fn message(&self) -> (r: String)
        ensures
            r@ == self@.text(),
    {
        match self {
            CcdmError::Http(s) => concat("http error: ", s.as_str()),
            CcdmError::Io(s) => concat("io error: ", s.as_str()),
            CcdmError::InvalidUrl(s) => concat("invalid url: ", s.as_str()),
            CcdmError::RangeNotSupported => "server does not support range requests".to_string(),
            CcdmError::Cancelled => "download cancelled".to_string(),
            CcdmError::Unsupported(s) => concat("unsupported media: ", s.as_str()),
            CcdmError::Other(s) => s.clone(),
        }
    }
}

/// The seconds to wait after `attempt` failed, twice as long each time.
pub fn retry_wait(attempt: u32) -> (r: u64)
    requires
        attempt < MAX_ATTEMPTS,
    ensures
        r == vstd::arithmetic::power2::pow2(attempt as nat),
{
    proof {
        vstd::arithmetic::power2::lemma2_to64();
    }
    if attempt == 0 {
        1
    } else if attempt == 1 {
        2
    } else {
        4
    }
}

/// `a` followed by `b`.
pub fn concat(a: &str, b: &str) -> (r: String)
    ensures
        r@ == a@ + b@,
{
    let mut out = chars_of(a);
    append(&mut out, chars_of(b).as_slice());
    string_of(out.as_slice())
}

/// Everything may pass but a bad URL, missing range support, a cancel and
/// unsupported media.
pub proof fn lasting_errors_do_not_pass(e: ErrorView)
    ensures
        e.transient() <==> !(e is InvalidUrl || e is RangeNotSupported || e is Cancelled
            || e is Unsupported),
{
}

/// The message of an error says what kind of error it is and ends with its cause,
/// whole.
pub proof fn message_ends_with_the_cause(s: Seq<char>)
    ensures
        ErrorView::Http(s).text() == "http error: "@ + s,
        ErrorView::Io(s).text() == "io error: "@ + s,
        ErrorView::InvalidUrl(s).text() == "invalid url: "@ + s,
        ErrorView::Unsupported(s).text() == "unsupported media: "@ + s,
        s.is_suffix_of(ErrorView::Http(s).text()),
        s.is_suffix_of(ErrorView::Io(s).text()),
        s.is_suffix_of(ErrorView::InvalidUrl(s).text()),
        s.is_suffix_of(ErrorView::Unsupported(s).text()),
        ErrorView::Other(s).text() == s,
        ErrorView::Http(s).text().len() > s.len(),
        ErrorView::Io(s).text().len() > s.len(),
        ErrorView::InvalidUrl(s).text().len() > s.len(),
        ErrorView::Unsupported(s).text().len() > s.len(),
{
    reveal_strlit("http error: ");
    reveal_strlit("io error: ");
    reveal_strlit("invalid url: ");
    reveal_strlit("unsupported media: ");
    lemma_suffix("http error: "@, s);
    lemma_suffix("io error: "@, s);
    lemma_suffix("invalid url: "@, s);
    lemma_suffix("unsupported media: "@, s);
}

proof fn lemma_suffix(a: Seq<char>, s: Seq<char>)
    ensures
        s.is_suffix_of(a + s),
{
    assert((a + s).subrange(a.len() as int, (a + s).len() as int) =~= s);
}

/// Another attempt follows after the first two where the error may pass, and never
/// after the third.
pub proof fn three_attempts_are_made(e: &CcdmError, attempt: u32, r: bool)
    requires
        call_ensures(CcdmError::retries_after, (e, attempt), r),
    ensures
        r <==> attempt < 3 && !(e@ is InvalidUrl || e@ is RangeNotSupported || e@ is Cancelled
            || e@ is Unsupported),
{
}

} // verus!
