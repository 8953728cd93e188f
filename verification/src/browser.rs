//! Browser native-messaging host protocol.
//!
//! Browsers launch the host with packet-framed JSON over stdio: `u32`
//! little-endian length + UTF-8 JSON, in both directions. The extension
//! forwards taken-over downloads; the host appends them to the shared queue
//! store.

use vstd::prelude::*;

use crate::error::{concat, CcdmError, ErrorView};
use crate::json::{self, parse_json_bytes, write_json, Json};
use crate::model::{self, DownloadEntry, EntryView};
use crate::names::{self, new_id, sanitize_file_name};
use crate::queue;
use crate::speed_limiter;
use crate::store::{Store, StoreView};
use crate::text::{self, append, chars_of, decimal_of, string_of};
use crate::urls::{self, parse_url, UrlParts, UrlView};

verus! {

/// Must match the `name` in the host manifest and the extension code.
pub const HOST_NAME: &'static str = "com.ccdm.native";

/// Bumped when the JSON shapes below change incompatibly.
pub const PROTOCOL_VERSION: u32 = 1;

/// Largest single message that is accepted (64 MiB).
pub const MAX_MESSAGE_BYTES: usize = 67_108_864;

/// A request from the browser extension.
#[derive(Debug, Clone)]
pub enum HostRequest {
    Ping,
    Download { url: String, filename: Option<String>, referrer: Option<String> },
}

/// The texts of a [`HostRequest`].
pub enum RequestView {
    Ping,
    Download { url: Seq<char>, filename: Option<Seq<char>>, referrer: Option<Seq<char>> },
}

impl View for HostRequest {
    type V = RequestView;

    open spec fn view(&self) -> RequestView {
        match *self {
            HostRequest::Ping => RequestView::Ping,
            HostRequest::Download { url, filename, referrer } => RequestView::Download {
                url: url@,
                filename: text::opt_view(filename),
                referrer: text::opt_view(referrer),
            },
        }
    }
}

/// Reply to the extension.
#[derive(Debug, Clone)]
pub enum HostResponse {
    Pong { version: String },
    Accepted { id: String },
    Rejected { reason: String },
}

/// The texts of a [`HostResponse`].
pub enum ResponseView {
    Pong { version: Seq<char> },
    Accepted { id: Seq<char> },
    Rejected { reason: Seq<char> },
}

impl View for HostResponse {
    type V = ResponseView;

    open spec fn view(&self) -> ResponseView {
        match *self {
            HostResponse::Pong { version } => ResponseView::Pong { version: version@ },
            HostResponse::Accepted { id } => ResponseView::Accepted { id: id@ },
            HostResponse::Rejected { reason } => ResponseView::Rejected { reason: reason@ },
        }
    }
}

/// The number that four bytes stand for, the lowest first.
pub open spec fn little_endian(b: Seq<u8>) -> nat
    recommends
        b.len() == 4,
{
    (b[0] + b[1] * 0x100 + b[2] * 0x1_0000 + b[3] * 0x100_0000) as nat
}

/// The four bytes of a number, the lowest first; what does not fit is left out.
pub open spec fn four_bytes(n: nat) -> Seq<u8> {
    seq![
        (n % 0x100) as u8,
        (n / 0x100 % 0x100) as u8,
        (n / 0x1_0000 % 0x100) as u8,
        (n / 0x100_0000 % 0x100) as u8,
    ]
}

/// Whether a message of this length is accepted.
pub open spec fn acceptable(len: nat) -> bool {
    0 < len <= MAX_MESSAGE_BYTES
}

/// The error for a message of a length that is not accepted.
pub open spec fn bad_length(len: nat) -> ErrorView {
    ErrorView::Other("bad message length: "@ + text::decimal(len))
}

/// The length of the message behind a header of four bytes.
pub fn message_length(b0: u8, b1: u8, b2: u8, b3: u8) -> (r: Result<usize, CcdmError>)
    ensures
        (match r {
            Ok(n) => Ok(n as nat),
            Err(e) => Err(e@),
        }) == (if acceptable(little_endian(seq![b0, b1, b2, b3])) {
            Ok(little_endian(seq![b0, b1, b2, b3]))
        } else {
            Err(bad_length(little_endian(seq![b0, b1, b2, b3])))
        }),
{
    let len: u64 = b0 as u64 + b1 as u64 * 0x100 + b2 as u64 * 0x1_0000 + b3 as u64 * 0x100_0000;
    if len == 0 || len > MAX_MESSAGE_BYTES as u64 {
        let mut text = chars_of("bad message length: ");
        append(&mut text, decimal_of(len as u128).as_slice());
        Err(CcdmError::Other(string_of(text.as_slice())))
    } else {
        Ok(len as usize)
    }
}

/// A message as it is sent: its length in four bytes, then its bytes.
pub open spec fn framed(payload: Seq<u8>) -> Seq<u8> {
    four_bytes(payload.len()) + payload
}

/// What is read of a message that begins with its header: its bytes; an error
/// where the length is not accepted, or where the bytes end too early.
pub open spec fn unframed(bytes: Seq<u8>) -> Result<Seq<u8>, ErrorView> {
    if bytes.len() < 4 {
        Err(ErrorView::Io("failed to fill whole buffer"@))
    } else if !acceptable(little_endian(bytes.take(4))) {
        Err(bad_length(little_endian(bytes.take(4))))
    } else if bytes.len() - 4 < little_endian(bytes.take(4)) {
        Err(ErrorView::Io("failed to fill whole buffer"@))
    } else {
        Ok(bytes.subrange(4, 4 + little_endian(bytes.take(4)) as int))
    }
}

proof fn lemma_four_bytes(n: nat)
    requires
        n < 0x1_0000_0000,
    ensures
        little_endian(four_bytes(n)) == n,
{
    assert(n / 0x100 % 0x100 * 0x100 + n % 0x100 == n % 0x1_0000);
    assert(n / 0x1_0000 % 0x100 * 0x1_0000 + n % 0x1_0000 == n % 0x100_0000);
    assert(n / 0x100_0000 % 0x100 == n / 0x100_0000);
}

/// A message that was sent is read back, whatever follows it, and what follows
/// it is left: the header counts the bytes of the message.
pub proof fn sent_message_is_read_back(payload: Seq<u8>, rest: Seq<u8>)
    requires
        acceptable(payload.len()),
    ensures
        little_endian((framed(payload) + rest).take(4)) == payload.len(),
        (framed(payload) + rest).skip(4 + payload.len() as int) == rest,
        unframed(framed(payload) + rest) == Ok::<Seq<u8>, ErrorView>(payload),
{
    let bytes = framed(payload) + rest;
    lemma_four_bytes(payload.len());
    assert(bytes.take(4) =~= four_bytes(payload.len()));
    assert(bytes.subrange(4, 4 + payload.len() as int) =~= payload);
    assert(bytes.skip(4 + payload.len() as int) =~= rest);
}

/// A message that is empty or too large is refused, whatever it holds.
pub proof fn bad_message_is_refused(payload: Seq<u8>)
    requires
        !acceptable(payload.len()),
        payload.len() < 0x1_0000_0000,
    ensures
        unframed(framed(payload)) == Err::<Seq<u8>, ErrorView>(bad_length(payload.len())),
{
    lemma_four_bytes(payload.len());
    assert(framed(payload).take(4) =~= four_bytes(payload.len()));
}

/// A message as it is sent.
pub fn frame(payload: &[u8]) -> (r: Vec<u8>)
    ensures
        r@ == framed(payload@),
{
    let n: usize = payload.len();
    let mut out: Vec<u8> = Vec::new();
    out.push((n % 0x100) as u8);
    out.push((n / 0x100 % 0x100) as u8);
    out.push((n / 0x1_0000 % 0x100) as u8);
    out.push((n / 0x100_0000 % 0x100) as u8);
    assert(out@ =~= four_bytes(n as nat));
    let ghost head = out@;
    let mut i: usize = 0;
    assert(out@ =~= head + payload@.take(0));
    while i < n
        invariant
            n == payload@.len(),
            i <= n,
            out@ == head + payload@.take(i as int),
        decreases n - i,
    {
        out.push(payload[i]);
        assert(payload@.take(i + 1) =~= payload@.take(i as int).push(payload@[i as int]));
        assert(out@ =~= head + payload@.take(i + 1));
        i = i + 1;
    }
    assert(payload@.take(n as int) =~= payload@);
    out
}

pub open spec fn bytes_view(r: Result<&[u8], CcdmError>) -> Result<Seq<u8>, ErrorView> {
    match r {
        Ok(b) => Ok(b@),
        Err(e) => Err(e@),
    }
}

/// What is read of a message that begins with its header.
pub fn payload_of(bytes: &[u8]) -> (r: Result<&[u8], CcdmError>)
    ensures
        bytes_view(r) == unframed(bytes@),
{
    let n: usize = bytes.len();
    if n < 4 {
        return Err(CcdmError::Io("failed to fill whole buffer".to_string()));
    }
    assert(bytes@.take(4) =~= seq![bytes@[0], bytes@[1], bytes@[2], bytes@[3]]);
    let len = match message_length(bytes[0], bytes[1], bytes[2], bytes[3]) {
        Ok(len) => len,
        Err(e) => {
            return Err(e);
        },
    };
    if n - 4 < len {
        return Err(CcdmError::Io("failed to fill whole buffer".to_string()));
    }
    Ok(&bytes[4..4 + len])
}

pub open spec fn message_view(r: Result<serde_json::Value, CcdmError>) -> Result<
    Json,
    ErrorView,
> {
    match r {
        Ok(v) => Ok(json::json_of(v)),
        Err(e) => Err(e@),
    }
}

/// The message that bytes begin with.
pub open spec fn received(bytes: Seq<u8>) -> Result<Json, ErrorView> {
    match unframed(bytes) {
        Ok(payload) => match json::json_parse_bytes(payload) {
            Ok(v) => Ok(v),
            Err(e) => Err(ErrorView::Other(e)),
        },
        Err(e) => Err(e),
    }
}

/// Read one length-prefixed JSON message from the bytes that it begins.
pub fn read_message(bytes: &[u8]) -> (r: Result<serde_json::Value, CcdmError>)
    ensures
        message_view(r) == received(bytes@),
{
    let payload = match payload_of(bytes) {
        Ok(p) => p,
        Err(e) => {
            return Err(e);
        },
    };
    match parse_json_bytes(payload) {
        Ok(v) => Ok(v),
        Err(e) => Err(CcdmError::Other(e)),
    }
}

/// The bytes of one length-prefixed JSON message. Where its length is accepted,
/// its numbers are whole and it is not nested too deep, the message is read back
/// from the bytes, whatever follows them; and a message that is read from them
/// is always the one that was written.
pub fn write_message(value: &serde_json::Value) -> (r: Result<Vec<u8>, CcdmError>)
    ensures
        r is Ok,
        r matches Ok(b) ==> b@ == framed(json::json_bytes(*value)),
        r matches Ok(b) ==> acceptable(json::json_bytes(*value).len()) && json::json_of(
            *value,
        ).readable(json::MAX_DEPTH as nat) ==> forall|rest: Seq<u8>|
            #[trigger] received(b@ + rest) == Ok::<Json, ErrorView>(json::json_of(*value)),
        r matches Ok(b) ==> acceptable(json::json_bytes(*value).len()) ==> forall|rest: Seq<u8>|
            (#[trigger] received(b@ + rest) matches Ok(back) ==> back == json::json_of(*value)),
{
    match write_json(value) {
        Ok(bytes) => {
            proof {
                if acceptable(bytes@.len()) {
                    assert forall|rest: Seq<u8>| unframed(#[trigger] (framed(bytes@) + rest)) == Ok::<
                        Seq<u8>,
                        ErrorView,
                    >(bytes@) by {
                        sent_message_is_read_back(bytes@, rest);
                    }
                }
            }
            Ok(frame(bytes.as_slice()))
        },
        Err(e) => Err(CcdmError::Other(e)),
    }
}

/// The name under which a requested download is queued: the one that the
/// browser gives, else the one that the URL suggests, made safe.
pub open spec fn requested_name(
    filename: Option<Seq<char>>,
    parsed: Result<UrlView, Seq<char>>,
) -> Seq<char> {
    match filename {
        Some(n) => names::sanitized(n),
        None => names::sanitized(names::guessed(parsed)),
    }
}

/// The entry that a request is queued as.
pub open spec fn requested_entry(
    id: Seq<char>,
    url: Seq<char>,
    filename: Option<Seq<char>>,
    parsed: Result<UrlView, Seq<char>>,
) -> EntryView {
    EntryView::fresh(id, url, requested_name(filename, parsed))
}

/// The answer to a download and the store after it, as long as the store can
/// be saved: it is queued under the id and accepted, unless its URL is none.
pub open spec fn queued(
    url: Seq<char>,
    filename: Option<Seq<char>>,
    parsed: Result<UrlView, Seq<char>>,
    store: StoreView,
    id: Seq<char>,
) -> (ResponseView, StoreView) {
    match parsed {
        Err(_) => (ResponseView::Rejected { reason: "bad url: "@ + url }, store),
        Ok(_) => (
            ResponseView::Accepted { id },
            StoreView {
                queue: queue::added(store.queue, requested_entry(id, url, filename, parsed)),
                ..store
            },
        ),
    }
}

/// The answer to a request and the store after it: a ping is answered with
/// the version, a download is queued.
pub open spec fn answered(
    request: RequestView,
    parsed: Result<UrlView, Seq<char>>,
    store: StoreView,
    version: Seq<char>,
    id: Seq<char>,
) -> (ResponseView, StoreView) {
    match request {
        RequestView::Ping => (ResponseView::Pong { version }, store),
        RequestView::Download { url, filename, .. } => queued(url, filename, parsed, store, id),
    }
}

/// The URL of a request, which is parsed before it is answered.
pub open spec fn request_url(request: RequestView) -> Seq<char> {
    match request {
        RequestView::Ping => Seq::empty(),
        RequestView::Download { url, filename, .. } => url,
    }
}

/// Answer a download whose URL was parsed to `parsed`.
pub fn queue_download(
    url: String,
    filename: Option<String>,
    parsed: Result<UrlParts, String>,
    store: &mut Store,
    max_connections: usize,
    id: String,
) -> (r: HostResponse)
    ensures
        (r@, final(store)@) == queued(
            url@,
            text::opt_view(filename),
            urls::parts_view(parsed),
            old(store)@,
            id@,
        ),
{
    let name = match (&parsed, filename) {
        (Err(_), _) => {
            return HostResponse::Rejected { reason: concat("bad url: ", url.as_str()) };
        },
        (Ok(_), Some(n)) => sanitize_file_name(n.as_str()),
        (Ok(_), None) => sanitize_file_name(names::name_from_url(&parsed).as_str()),
    };
    let entry = DownloadEntry::with_plan(id.clone(), url, name, None, max_connections);
    store.queue_mut().add(entry);
    HostResponse::Accepted { id }
}

/// Answer a request under the new id `id`.
pub fn answer_request(
    request: HostRequest,
    store: &mut Store,
    max_connections: usize,
    version: &str,
    id: String,
) -> (r: HostResponse)
    ensures
        (r@, final(store)@) == answered(
            request@,
            urls::url_parse(request_url(request@)),
            old(store)@,
            version@,
            id@,
        ),
{
    match request {
        HostRequest::Ping => HostResponse::Pong { version: version.to_string() },
        HostRequest::Download { url, filename, referrer: _ } => {
            let parsed = parse_url(url.as_str());
            queue_download(url, filename, parsed, store, max_connections, id)
        },
    }
}

/// Answer a request in the process `pid`; accepted downloads land in the queue
/// of the store, which is to be saved before the answer is given (see
/// [`after_save`]). The new id holds what a reading of the clock
/// shows; which reading it is, is not described.
pub fn handle_request(
    request: HostRequest,
    store: &mut Store,
    max_connections: usize,
    version: &str,
    pid: u32,
) -> (r: HostResponse)
    ensures
        exists|t: std::time::SystemTime|
            (r@, final(store)@) == answered(
                request@,
                urls::url_parse(request_url(request@)),
                old(store)@,
                version@,
                names::id_text("host"@, #[trigger] speed_limiter::clock_millis(t), pid as nat),
            ),
{
    let id = new_id("host", pid);
    answer_request(request, store, max_connections, version, id)
}

/// The answer once the store was saved: what was accepted is rejected after
/// all, with the message of the error, where it could not be saved.
pub fn after_save(response: HostResponse, saved: Result<(), CcdmError>) -> (r: HostResponse)
    ensures
        r@ == (match (response@, saved) {
            (ResponseView::Accepted { id }, Err(e)) => ResponseView::Rejected { reason: e@.text() },
            _ => response@,
        }),
{
    match (response, saved) {
        (HostResponse::Accepted { id }, Err(e)) => HostResponse::Rejected { reason: e.message() },
        (HostResponse::Accepted { id }, Ok(_)) => HostResponse::Accepted { id },
        (HostResponse::Pong { version }, _) => HostResponse::Pong { version },
        (HostResponse::Rejected { reason }, _) => HostResponse::Rejected { reason },
    }
}

/// The answer to a message that is no request.
pub fn bad_message(cause: &str) -> (r: HostResponse)
    ensures
        r@ == (ResponseView::Rejected { reason: "bad message: "@ + cause@ }),
{
    HostResponse::Rejected { reason: concat("bad message: ", cause) }
}

/// A download that was accepted is in the queue, under its id and with its URL;
/// a request that was not accepted leaves the store as it is.
pub proof fn accepted_download_is_queued(
    request: RequestView,
    parsed: Result<UrlView, Seq<char>>,
    store: StoreView,
    version: Seq<char>,
    id: Seq<char>,
)
    requires
        queue::distinct(store.queue),
    ensures
        ({
            let (response, after) = answered(request, parsed, store, version, id);
            &&& response is Accepted ==> {
                &&& response == (ResponseView::Accepted { id })
                &&& queue::entry_of(after.queue, id) matches Some(e)
                &&& e.url == request_url(request)
                &&& e.status == model::DownloadStatus::Queued
            }
            &&& response !is Accepted ==> after == store
        }),
{
    if let RequestView::Download { url, filename, .. } = request {
        let e = requested_entry(id, url, filename, parsed);
        queue::added_entry_is_found(store.queue, e, id);
    }
}

/// Who may talk to the host.
#[derive(Debug, Clone)]
pub enum Allowed {
    /// `allowed_origins` of Chromium browsers.
    Origins(Vec<String>),
    /// `allowed_extensions` of Firefox.
    Extensions(Vec<String>),
}

/// Host manifest.
#[derive(Debug, Clone)]
pub struct HostManifest {
    pub name: String,
    pub description: String,
    pub path: String,
    /// How browsers talk to the host.
    pub kind: String,
    pub allowed: Allowed,
}

/// What every manifest says besides who may talk to the host.
pub open spec fn describes_host(m: HostManifest, exe_path: Seq<char>) -> bool {
    &&& m.name@ == HOST_NAME@
    &&& m.description@ == "ccdwonloadmanager native messaging host"@
    &&& m.path@ == exe_path
    &&& m.kind@ == "stdio"@
}

fn manifest(exe_path: &str, allowed: Allowed) -> (r: HostManifest)
    ensures
        describes_host(r, exe_path@),
        r.allowed == allowed,
{
    HostManifest {
        name: HOST_NAME.to_string(),
        description: "ccdwonloadmanager native messaging host".to_string(),
        path: exe_path.to_string(),
        kind: "stdio".to_string(),
        allowed,
    }
}

/// Host manifest for Chromium browsers.
pub fn chrome_manifest(exe_path: &str, extension_id: &str) -> (r: HostManifest)
    ensures
        describes_host(r, exe_path@),
        r.allowed matches Allowed::Origins(list) && text::views(list@) == seq![
            "chrome-extension://"@ + extension_id@ + "/"@,
        ],
{
    let mut origin = chars_of("chrome-extension://");
    append(&mut origin, chars_of(extension_id).as_slice());
    append(&mut origin, chars_of("/").as_slice());
    let list: Vec<String> = vec![string_of(origin.as_slice())];
    assert(text::views(list@) =~= seq!["chrome-extension://"@ + extension_id@ + "/"@]);
    manifest(exe_path, Allowed::Origins(list))
}

/// Host manifest for Firefox.
pub fn firefox_manifest(exe_path: &str, extension_id: &str) -> (r: HostManifest)
    ensures
        describes_host(r, exe_path@),
        r.allowed matches Allowed::Extensions(list) && text::views(list@) == seq![extension_id@],
{
    let list: Vec<String> = vec![extension_id.to_string()];
    assert(text::views(list@) =~= seq![extension_id@]);
    manifest(exe_path, Allowed::Extensions(list))
}

/// Messages are accepted from one byte up to 64 MiB.
pub proof fn accepted_lengths(len: nat)
    ensures
        acceptable(len) <==> 1 <= len <= 64 * 1024 * 1024,
{
}

/// A download is accepted exactly where its URL is one, and is then queued under
/// the new id, with its URL and with the name that the browser gives, or else
/// the one that the URL suggests, made safe. A ping is answered with the
/// version, and the file of the store never changes.
pub proof fn downloads_are_queued_as_requested(
    url: Seq<char>,
    filename: Option<Seq<char>>,
    referrer: Option<Seq<char>>,
    parsed: Result<UrlView, Seq<char>>,
    store: StoreView,
    version: Seq<char>,
    id: Seq<char>,
)
    requires
        queue::distinct(store.queue),
    ensures
        ({
            let request = RequestView::Download { url, filename, referrer };
            let (response, after) = answered(request, parsed, store, version, id);
            let entry = queue::entry_of(after.queue, id);
            &&& response is Accepted <==> parsed is Ok
            &&& response is Rejected <==> parsed is Err
            &&& after.path == store.path
            &&& parsed is Ok ==> {
                &&& entry is Some
                &&& entry->0.id == id
                &&& entry->0.url == url
                &&& entry->0.downloaded_bytes == 0
                &&& filename matches Some(n) ==> entry->0.file_name == names::sanitized(n)
                &&& filename is None ==> entry->0.file_name == names::sanitized(
                    names::guessed(parsed),
                )
            }
            &&& parsed is Ok ==> forall|other: Seq<char>|
                other != id ==> #[trigger] queue::entry_of(after.queue, other) == queue::entry_of(
                    store.queue,
                    other,
                )
        }),
        answered(RequestView::Ping, parsed, store, version, id) == (
            ResponseView::Pong { version },
            store,
        ),
{
    if parsed is Ok {
        let e = requested_entry(id, url, filename, parsed);
        queue::added_entry_is_found(store.queue, e, id);
        assert forall|other: Seq<char>| other != id implies #[trigger] queue::entry_of(
            queue::added(store.queue, e),
            other,
        ) == queue::entry_of(store.queue, other) by {
            queue::added_entry_is_found(store.queue, e, other);
        }
    }
}

/// A message that has not come whole is not read.
pub proof fn cut_message_is_not_read(payload: Seq<u8>, n: int)
    requires
        acceptable(payload.len()),
        0 <= n < framed(payload).len(),
    ensures
        unframed(framed(payload).take(n)) matches Err(e) && e is Io,
{
    let bytes = framed(payload).take(n);
    lemma_four_bytes(payload.len());
    if n >= 4 {
        assert(bytes.take(4) =~= four_bytes(payload.len()));
    }
}

/// An answer is given as it is unless it was an acceptance that could not be
/// saved: that is a rejection with the cause.
pub proof fn unsaved_downloads_are_rejected(
    response: HostResponse,
    saved: Result<(), CcdmError>,
    r: HostResponse,
)
    requires
        call_ensures(after_save, (response, saved), r),
    ensures
        saved is Ok ==> r@ == response@,
        response@ !is Accepted ==> r@ == response@,
        response@ is Accepted && saved is Err ==> r@ == (ResponseView::Rejected {
            reason: saved->Err_0@.text(),
        }),
{
}

/// The length of a message is sent with its lowest byte first.
pub proof fn lowest_byte_comes_first(n: nat, b0: u8, b1: u8, b2: u8, b3: u8)
    requires
        n < 0x1_0000_0000,
    ensures
        four_bytes(n).len() == 4,
        four_bytes(n)[0] == n % 256,
        n < 256 ==> four_bytes(n)[1] == 0 && four_bytes(n)[2] == 0 && four_bytes(n)[3] == 0,
        little_endian(seq![b0, b1, b2, b3]) == b0 + 256 * (b1 + 256 * (b2 + 256 * b3)),
        little_endian(four_bytes(n)) == n,
{
    lemma_four_bytes(n);
}

} // verus!
