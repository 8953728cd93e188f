//! The rows of the download list: how they come from the queue and go back to
//! it, what can be done with them, and what they show.

use vstd::prelude::*;

use crate::error::{concat, CcdmError, ErrorView};
use crate::model::{DownloadEntry, DownloadStatus, EntryView};
use crate::queue::{self, DownloadQueue};
use crate::schedule::{Moment, Schedule};
use crate::text::{
    self, append, chars_of, decimal_of, lowered, same_text, starts_with, string_of, trimmed,
};

verus! {

/// Engine-side state of one row.
#[derive(Debug, Clone, Copy, PartialEq, Eq, Structural)]
pub enum RowStatus {
    Queued,
    Downloading,
    Paused,
    Finished,
    Failed,
}

impl RowStatus {
    /// The status as it is shown.
    pub open spec fn shown(self) -> Seq<char> {
        match self {
            RowStatus::Queued => "queued"@,
            RowStatus::Downloading => "downloading"@,
            RowStatus::Paused => "paused"@,
            RowStatus::Finished => "finished"@,
            RowStatus::Failed => "failed"@,
        }
    }

    /// The name of the status in a fingerprint.
    pub open spec fn name(self) -> Seq<char> {
        match self {
            RowStatus::Queued => "Queued"@,
            RowStatus::Downloading => "Downloading"@,
            RowStatus::Paused => "Paused"@,
            RowStatus::Finished => "Finished"@,
            RowStatus::Failed => "Failed"@,
        }
    }

    /// The status of a row for a stored download; one that was downloading
    /// when it was stored waits again.
    pub open spec fn of(status: DownloadStatus) -> RowStatus {
        match status {
            DownloadStatus::Finished => RowStatus::Finished,
            DownloadStatus::Paused => RowStatus::Paused,
            DownloadStatus::Failed => RowStatus::Failed,
            DownloadStatus::Queued | DownloadStatus::Downloading => RowStatus::Queued,
        }
    }

    /// The status that a row is stored with.
    pub open spec fn stored(self) -> DownloadStatus {
        match self {
            RowStatus::Queued => DownloadStatus::Queued,
            RowStatus::Downloading => DownloadStatus::Downloading,
            RowStatus::Paused => DownloadStatus::Paused,
            RowStatus::Finished => DownloadStatus::Finished,
            RowStatus::Failed => DownloadStatus::Failed,
        }
    }

    /// The status as it is shown.
    pub fn label(self) -> (r: &'static str)
        ensures
            r@ == self.shown(),
    {
        match self {
            RowStatus::Queued => "queued",
            RowStatus::Downloading => "downloading",
            RowStatus::Paused => "paused",
            RowStatus::Finished => "finished",
            RowStatus::Failed => "failed",
        }
    }

    /// The status of a row for a stored download.
    pub fn from_stored(status: DownloadStatus) -> (r: RowStatus)
        ensures
            r == RowStatus::of(status),
    {
        match status {
            DownloadStatus::Finished => RowStatus::Finished,
            DownloadStatus::Paused => RowStatus::Paused,
            DownloadStatus::Failed => RowStatus::Failed,
            DownloadStatus::Queued | DownloadStatus::Downloading => RowStatus::Queued,
        }
    }

    /// The status that a row is stored with.
    pub fn to_stored(self) -> (r: DownloadStatus)
        ensures
            r == self.stored(),
    {
        match self {
            RowStatus::Queued => DownloadStatus::Queued,
            RowStatus::Downloading => DownloadStatus::Downloading,
            RowStatus::Paused => DownloadStatus::Paused,
            RowStatus::Finished => DownloadStatus::Finished,
            RowStatus::Failed => DownloadStatus::Failed,
        }
    }
}

/// One row of the list.
#[derive(Debug, Clone)]
pub struct Row {
    pub id: String,
    pub url: String,
    pub file_name: String,
    pub status: RowStatus,
    /// Why the row failed.
    pub detail: String,
    pub downloaded: u64,
    pub total: Option<u64>,
    /// A worker is busy with the row.
    pub running: bool,
}

/// The contents of a [`Row`].
#[verifier::ext_equal]
pub struct RowView {
    pub id: Seq<char>,
    pub url: Seq<char>,
    pub file_name: Seq<char>,
    pub status: RowStatus,
    pub detail: Seq<char>,
    pub downloaded: u64,
    pub total: Option<u64>,
    pub running: bool,
}

impl View for Row {
    type V = RowView;

    open spec fn view(&self) -> RowView {
        RowView {
            id: self.id@,
            url: self.url@,
            file_name: self.file_name@,
            status: self.status,
            detail: self.detail@,
            downloaded: self.downloaded,
            total: self.total,
            running: self.running,
        }
    }
}

pub open spec fn rows_view(v: Seq<Row>) -> Seq<RowView> {
    Seq::new(v.len(), |i: int| v[i]@)
}

/// A size that is known; a size of zero is none.
pub open spec fn known(total: Option<u64>) -> Option<u64> {
    match total {
        Some(t) => if t == 0 {
            None
        } else {
            Some(t)
        },
        None => None,
    }
}

/// A size that is known; a size of zero is none.
pub fn known_total(total: Option<u64>) -> (r: Option<u64>)
    ensures
        r == known(total),
{
    match total {
        Some(t) => if t == 0 {
            None
        } else {
            Some(t)
        },
        None => None,
    }
}

impl RowView {
    /// A row that waits.
    pub open spec fn fresh(id: Seq<char>, url: Seq<char>, file_name: Seq<char>) -> RowView {
        RowView {
            id,
            url,
            file_name,
            status: RowStatus::Queued,
            detail: Seq::empty(),
            downloaded: 0,
            total: None,
            running: false,
        }
    }

    /// The row for a stored download.
    pub open spec fn of(e: EntryView) -> RowView {
        RowView {
            status: RowStatus::of(e.status),
            downloaded: e.downloaded_bytes,
            total: known(e.total_bytes),
            ..RowView::fresh(e.id, e.url, e.file_name)
        }
    }

    /// What a row is stored as.
    pub open spec fn stored(self) -> EntryView {
        EntryView {
            status: self.status.stored(),
            downloaded_bytes: self.downloaded,
            total_bytes: known(self.total),
            ..EntryView::fresh(self.id, self.url, self.file_name)
        }
    }

    /// What changes when the row is worth storing again: its status, and its
    /// bytes unless it is downloading.
    pub open spec fn print(self) -> Seq<char> {
        if self.status == RowStatus::Downloading {
            self.status.name()
        } else {
            self.status.name() + ":"@ + text::decimal(self.downloaded as nat)
        }
    }

    /// The row once it has begun to download.
    pub open spec fn begun(self) -> RowView {
        RowView { status: RowStatus::Downloading, detail: Seq::empty(), running: true, ..self }
    }

    /// The row once its download has ended, with a failure or without one.
    pub open spec fn ended(self, failure: Option<ErrorView>, cancelled: bool) -> RowView {
        let done = RowView { running: false, ..self };
        match failure {
            None => RowView {
                status: RowStatus::Finished,
                downloaded: match known(self.total) {
                    Some(t) => t,
                    None => self.downloaded,
                },
                ..done
            },
            Some(e) => if cancelled {
                RowView { status: RowStatus::Paused, ..done }
            } else {
                RowView { status: RowStatus::Failed, detail: e.text(), ..done }
            },
        }
    }

    /// The status as it is shown, with the reason of a failure.
    pub open spec fn status_shown(self) -> Seq<char> {
        if self.status == RowStatus::Failed {
            "failed — "@ + self.detail
        } else {
            self.status.shown()
        }
    }
}

/// A row that was stored comes back as it was, but for what only lives while
/// the program runs: it is not running, it has no detail, and where it was
/// downloading it waits.
pub proof fn stored_row_comes_back(row: RowView)
    ensures
        RowView::of(row.stored()) == (RowView {
            status: if row.status == RowStatus::Downloading {
                RowStatus::Queued
            } else {
                row.status
            },
            detail: Seq::empty(),
            running: false,
            total: known(row.total),
            ..row
        }),
{
}

/// Two fingerprints are the same exactly where there is nothing new to store.
pub proof fn fingerprint_tells_changes(a: RowView, b: RowView)
    ensures
        a.print() == b.print() <==> a.status == b.status && (a.status == RowStatus::Downloading
            || a.downloaded == b.downloaded),
{
    reveal_strlit("Queued");
    reveal_strlit("Downloading");
    reveal_strlit("Paused");
    reveal_strlit("Finished");
    reveal_strlit("Failed");
    reveal_strlit(":");
    let x = a.print();
    let y = b.print();
    if a.status != b.status {
        assert(x[0] != y[0] || x[1] != y[1]) by {
            assert(x[0] == a.status.name()[0] && x[1] == a.status.name()[1]);
            assert(y[0] == b.status.name()[0] && y[1] == b.status.name()[1]);
        }
    } else if a.status != RowStatus::Downloading && a.downloaded != b.downloaded {
        let head = a.status.name() + ":"@;
        let da = text::decimal(a.downloaded as nat);
        let db = text::decimal(b.downloaded as nat);
        text::decimal_reads_back(a.downloaded as nat);
        text::decimal_reads_back(b.downloaded as nat);
        assert((head + da).skip(head.len() as int) =~= da);
        assert((head + db).skip(head.len() as int) =~= db);
    }
}

impl Row {
    /// A row that waits.
    pub fn new(id: String, url: String, file_name: String) -> (r: Row)
        ensures
            r@ == RowView::fresh(id@, url@, file_name@),
    {
        let none: Vec<char> = Vec::new();
        Row {
            id,
            url,
            file_name,
            status: RowStatus::Queued,
            detail: string_of(none.as_slice()),
            downloaded: 0,
            total: None,
            running: false,
        }
    }

    /// The row for a stored download.
    pub fn from_entry(e: &DownloadEntry) -> (r: Row)
        ensures
            r@ == RowView::of(e@),
    {
        let mut row = Row::new(e.id.clone(), e.url.clone(), e.file_name.clone());
        row.status = RowStatus::from_stored(e.status);
        row.downloaded = e.downloaded_bytes;
        row.total = known_total(e.total_bytes);
        row
    }

    /// What the row is stored as.
    pub fn to_entry(&self) -> (r: DownloadEntry)
        ensures
            r@ == self@.stored(),
    {
        let mut e = DownloadEntry::new(self.id.clone(), self.url.clone(), self.file_name.clone());
        e.status = self.status.to_stored();
        e.downloaded_bytes = self.downloaded;
        e.total_bytes = known_total(self.total);
        e
    }

    /// Fingerprint used to persist only on real state changes.
    pub fn fingerprint(&self) -> (r: String)
        ensures
            r@ == self@.print(),
    {
        let name = match self.status {
            RowStatus::Downloading => {
                return "Downloading".to_string();
            },
            RowStatus::Queued => "Queued",
            RowStatus::Paused => "Paused",
            RowStatus::Finished => "Finished",
            RowStatus::Failed => "Failed",
        };
        let mut out = chars_of(name);
        append(&mut out, chars_of(":").as_slice());
        append(&mut out, decimal_of(self.downloaded as u128).as_slice());
        string_of(out.as_slice())
    }

    /// The status as it is shown.
    pub fn status_text(&self) -> (r: String)
        ensures
            r@ == self@.status_shown(),
    {
        if self.status == RowStatus::Failed {
            concat("failed — ", self.detail.as_str())
        } else {
            self.status.label().to_string()
        }
    }

    /// How much is done, as downloaded bytes of total bytes, if the size is
    /// known.
    pub fn fraction(&self) -> (r: Option<(u64, u64)>)
        ensures
            r == (match known(self@.total) {
                Some(t) => Some(
                    (
                        if self@.downloaded < t {
                            self@.downloaded
                        } else {
                            t
                        },
                        t,
                    ),
                ),
                None => None,
            }),
    {
        match known_total(self.total) {
            Some(t) => if self.downloaded < t {
                Some((self.downloaded, t))
            } else {
                Some((t, t))
            },
            None => None,
        }
    }

    /// The row begins to download.
    pub fn begin(&mut self)
        ensures
            final(self)@ == (RowView {
                status: RowStatus::Downloading,
                detail: Seq::empty(),
                running: true,
                ..old(self)@
            }),
            final(self)@ == old(self)@.begun(),
    {
        let none: Vec<char> = Vec::new();
        self.status = RowStatus::Downloading;
        self.detail = string_of(none.as_slice());
        self.running = true;
    }

    /// The row's download has ended: a success is finished and complete; a
    /// failure is a pause where the row was cancelled, and else shown with its
    /// message.
    pub fn end(&mut self, outcome: Result<(), CcdmError>, cancelled: bool)
        ensures
            final(self)@ == (match outcome {
                Ok(_) => RowView {
                    status: RowStatus::Finished,
                    downloaded: match known(old(self)@.total) {
                        Some(t) => t,
                        None => old(self)@.downloaded,
                    },
                    running: false,
                    ..old(self)@
                },
                Err(e) => if cancelled {
                    RowView { status: RowStatus::Paused, running: false, ..old(self)@ }
                } else {
                    RowView {
                        status: RowStatus::Failed,
                        detail: e@.text(),
                        running: false,
                        ..old(self)@
                    }
                },
            }),
            final(self)@ == old(self)@.ended(
                match outcome {
                    Ok(_) => None,
                    Err(e) => Some(e@),
                },
                cancelled,
            ),
    {
        match outcome {
            Ok(_) => {
                if let Some(t) = known_total(self.total) {
                    self.downloaded = t;
                }
                self.status = RowStatus::Finished;
            },
            Err(e) => {
                if cancelled {
                    self.status = RowStatus::Paused;
                } else {
                    self.status = RowStatus::Failed;
                    self.detail = e.message();
                }
            },
        }
        self.running = false;
    }
}

/// Where the row with the id stands; the number of rows where there is none.
pub open spec fn row_index(rows: Seq<RowView>, id: Seq<char>) -> nat
    decreases rows.len(),
{
    if rows.len() == 0 || rows[0].id == id {
        0
    } else {
        1 + row_index(rows.skip(1), id)
    }
}

/// The row with the id, if there is one.
pub fn find(rows: &Vec<Row>, id: &str) -> (r: Option<usize>)
    ensures
        (match r {
            Some(i) => i as nat,
            None => rows@.len(),
        }) == row_index(rows_view(rows@), id@),
        r matches Some(i) ==> i < rows@.len(),
{
    let ghost all = rows_view(rows@);
    let mut i: usize = 0;
    assert(all.skip(0) =~= all);
    while i < rows.len()
        invariant
            i <= rows@.len(),
            all == rows_view(rows@),
            row_index(all, id@) == i + row_index(all.skip(i as int), id@),
        decreases rows.len() - i,
    {
        assert(all.skip(i as int)[0] == all[i as int]);
        assert(all.skip(i as int).skip(1) =~= all.skip(i + 1));
        if same_text(rows[i].id.as_str(), id) {
            return Some(i);
        }
        i = i + 1;
    }
    None
}

/// Whether a row with the URL is there already.
pub fn is_listed(rows: &Vec<Row>, url: &str) -> (r: bool)
    ensures
        r <==> exists|i: int|
            0 <= i < rows@.len() && (#[trigger] rows_view(rows@)[i]).url == url@,
{
    let mut i: usize = 0;
    while i < rows.len()
        invariant
            i <= rows@.len(),
            forall|j: int| 0 <= j < i ==> (#[trigger] rows_view(rows@)[j]).url != url@,
        decreases rows.len() - i,
    {
        if same_text(rows[i].url.as_str(), url) {
            assert(rows_view(rows@)[i as int].url == url@);
            return true;
        }
        i = i + 1;
    }
    false
}

/// How many rows are busy.
pub open spec fn busy_rows(rows: Seq<RowView>) -> nat
    decreases rows.len(),
{
    if rows.len() == 0 {
        0
    } else {
        busy_rows(rows.drop_last()) + (if rows.last().running {
            1nat
        } else {
            0nat
        })
    }
}

/// How many rows are busy.
pub fn active_rows(rows: &Vec<Row>) -> (r: usize)
    ensures
        r == busy_rows(rows_view(rows@)),
{
    let ghost all = rows_view(rows@);
    let mut count: usize = 0;
    let mut i: usize = 0;
    while i < rows.len()
        invariant
            i <= rows@.len(),
            all == rows_view(rows@),
            count <= i,
            count == busy_rows(all.take(i as int)),
        decreases rows.len() - i,
    {
        assert(all.take(i + 1).drop_last() =~= all.take(i as int));
        assert(all.take(i + 1).last() == rows@[i as int]@);
        if rows[i].running {
            count = count + 1;
        }
        i = i + 1;
    }
    assert(all.take(i as int) =~= all);
    count
}

/// What a click on start does.
#[derive(Debug, Clone, Copy, PartialEq, Eq, Structural)]
pub enum StartStep {
    /// Nothing is started outside the scheduled window.
    Outside,
    /// The row is gone, or busy.
    Nothing,
    /// The row is started.
    Start,
}

/// What a click on start does at `now`, for a row that is there and running or
/// not, or is not there.
pub fn start_step(schedule: &Option<Schedule>, now: Moment, running: Option<bool>) -> (r: StartStep)
    requires
        now.valid(),
    ensures
        r == (if *schedule is Some && !schedule->0.covers(now) {
            StartStep::Outside
        } else if running == Some(false) {
            StartStep::Start
        } else {
            StartStep::Nothing
        }),
{
    if let Some(s) = schedule {
        if !s.allows(now) {
            return StartStep::Outside;
        }
    }
    match running {
        Some(busy) => if busy {
            StartStep::Nothing
        } else {
            StartStep::Start
        },
        None => StartStep::Nothing,
    }
}

/// Whether the queue has drained: there are rows, all of them are finished or
/// failed, and one is finished.
pub open spec fn drained(rows: Seq<RowView>) -> bool {
    &&& forall|i: int|
        0 <= i < rows.len() ==> (#[trigger] rows[i]).status == RowStatus::Finished || rows[i].status
            == RowStatus::Failed
    &&& exists|i: int| 0 <= i < rows.len() && (#[trigger] rows[i]).status == RowStatus::Finished
}

/// Whether to power off: it was asked for, and the queue has drained.
pub fn shuts_down(asked: bool, rows: &Vec<Row>) -> (r: bool)
    ensures
        r == (asked && drained(rows_view(rows@))),
{
    if !asked {
        return false;
    }
    let ghost all = rows_view(rows@);
    let mut any = false;
    let mut i: usize = 0;
    while i < rows.len()
        invariant
            i <= rows@.len(),
            all == rows_view(rows@),
            forall|j: int|
                0 <= j < i ==> (#[trigger] all[j]).status == RowStatus::Finished || all[j].status
                    == RowStatus::Failed,
            any <==> exists|j: int| 0 <= j < i && (#[trigger] all[j]).status == RowStatus::Finished,
        decreases rows.len() - i,
    {
        assert(all[i as int].status == rows@[i as int].status);
        match rows[i].status {
            RowStatus::Finished => {
                any = true;
            },
            RowStatus::Failed => {},
            RowStatus::Queued | RowStatus::Downloading | RowStatus::Paused => {
                return false;
            },
        }
        i = i + 1;
    }
    any
}

/// The link that the clipboard holds: its text, trimmed, where it is not blank.
pub open spec fn copied(text: Option<Seq<char>>) -> Option<Seq<char>> {
    match text {
        Some(t) => if text::trim(t).len() > 0 {
            Some(text::trim(t))
        } else {
            None
        },
        None => None,
    }
}

/// The link that the clipboard holds.
pub fn copied_link(text: Option<&str>) -> (r: Option<String>)
    ensures
        text::opt_view(r) == copied(text::str_view(text)),
{
    match text {
        Some(t) => {
            let all = chars_of(t);
            let link = trimmed(all.as_slice());
            if link.len() > 0 {
                Some(string_of(link))
            } else {
                None
            }
        },
        None => None,
    }
}

/// What the clipboard monitor does.
#[derive(Debug)]
pub enum MonitorStep {
    Nothing,
    /// Remember the text, which is no link.
    Remember(String),
    /// Remember the link and add it.
    Add(String),
}

/// The contents of a [`MonitorStep`].
pub enum MonitorView {
    Nothing,
    Remember(Seq<char>),
    Add(Seq<char>),
}

impl View for MonitorStep {
    type V = MonitorView;

    open spec fn view(&self) -> MonitorView {
        match *self {
            MonitorStep::Nothing => MonitorView::Nothing,
            MonitorStep::Remember(s) => MonitorView::Remember(s@),
            MonitorStep::Add(s) => MonitorView::Add(s@),
        }
    }
}

/// What the clipboard monitor does: a freshly copied link is added, any other
/// fresh text is only remembered, and a text that was seen last is ignored.
pub open spec fn monitored(on: bool, text: Option<Seq<char>>, last: Seq<char>) -> MonitorView {
    match copied(text) {
        Some(link) => if !on || link == last {
            MonitorView::Nothing
        } else if "http"@.is_prefix_of(text::lower(link)) {
            MonitorView::Add(link)
        } else {
            MonitorView::Remember(link)
        },
        None => MonitorView::Nothing,
    }
}

/// Clipboard monitor: auto-queue freshly copied links.
pub fn monitor_step(on: bool, text: Option<&str>, last: &str) -> (r: MonitorStep)
    ensures
        r@ == monitored(on, text::str_view(text), last@),
{
    if !on {
        return MonitorStep::Nothing;
    }
    match copied_link(text) {
        None => MonitorStep::Nothing,
        Some(link) => if same_text(link.as_str(), last) {
            MonitorStep::Nothing
        } else if starts_with(lowered(chars_of(link.as_str()).as_slice()).as_slice(), "http") {
            MonitorStep::Add(link)
        } else {
            MonitorStep::Remember(link)
        },
    }
}

/// A link is added once: as long as the clipboard does not change, the monitor
/// does nothing more.
pub proof fn copied_link_is_added_once(on: bool, text: Option<Seq<char>>, last: Seq<char>)
    ensures
        monitored(on, text, last) matches MonitorView::Add(link) ==> monitored(on, text, link)
            is Nothing,
        monitored(on, text, last) matches MonitorView::Remember(link) ==> monitored(on, text, link)
            is Nothing,
{
}

/// The list without the row with the id.
pub open spec fn rows_without(rows: Seq<RowView>, id: Seq<char>) -> Seq<RowView>
    decreases rows.len(),
{
    if rows.len() == 0 {
        Seq::empty()
    } else {
        let head = rows_without(rows.drop_last(), id);
        if rows.last().id == id {
            head
        } else {
            head.push(rows.last())
        }
    }
}

/// Whether the row with the id is busy.
pub open spec fn is_busy(rows: Seq<RowView>, id: Seq<char>) -> bool {
    let i = row_index(rows, id) as int;
    i < rows.len() && rows[i].running
}

/// Remove a row, unless it is busy; returns whether it was not.
pub fn remove_row(rows: Vec<Row>, id: &str) -> (r: (Vec<Row>, bool))
    ensures
        r.1 == !is_busy(rows_view(rows@), id@),
        rows_view(r.0@) == (if r.1 {
            rows_without(rows_view(rows@), id@)
        } else {
            rows_view(rows@)
        }),
{
    if let Some(i) = find(&rows, id) {
        if rows[i].running {
            return (rows, false);
        }
    }
    let ghost all = rows_view(rows@);
    let mut left: Vec<Row> = Vec::new();
    let mut i: usize = 0;
    assert(rows_view(left@) =~= rows_without(all.take(0), id@));
    while i < rows.len()
        invariant
            i <= rows@.len(),
            all == rows_view(rows@),
            rows_view(left@) == rows_without(all.take(i as int), id@),
        decreases rows.len() - i,
    {
        assert(all.take(i + 1).drop_last() =~= all.take(i as int));
        assert(all.take(i + 1).last() == rows@[i as int]@);
        if !same_text(rows[i].id.as_str(), id) {
            let ghost was = rows_view(left@);
            let row = rows[i].copy();
            left.push(row);
            assert(rows_view(left@) =~= was.push(row@));
        }
        i = i + 1;
    }
    assert(all.take(i as int) =~= all);
    (left, true)
}

impl Row {
    /// A copy of the row.
    pub fn copy(&self) -> (r: Row)
        ensures
            r@ == self@,
    {
        Row {
            id: self.id.clone(),
            url: self.url.clone(),
            file_name: self.file_name.clone(),
            status: self.status,
            detail: self.detail.clone(),
            downloaded: self.downloaded,
            total: self.total,
            running: self.running,
        }
    }
}

/// The list with a row for each stored download that has none, in order.
pub open spec fn imported(rows: Seq<RowView>, entries: Seq<EntryView>) -> Seq<RowView>
    decreases entries.len(),
{
    if entries.len() == 0 {
        rows
    } else {
        let head = imported(rows, entries.drop_last());
        let e = entries.last();
        if row_index(head, e.id) < head.len() {
            head
        } else {
            head.push(RowView::of(e))
        }
    }
}

pub open spec fn refs_view(v: Seq<&DownloadEntry>) -> Seq<EntryView> {
    Seq::new(v.len(), |i: int| v[i]@)
}

/// Add a row for each stored download that has none.
pub fn import_entries(rows: &mut Vec<Row>, entries: &Vec<&DownloadEntry>)
    ensures
        rows_view(final(rows)@) == imported(rows_view(old(rows)@), refs_view(entries@)),
{
    let ghost had = rows_view(rows@);
    let ghost all = refs_view(entries@);
    let mut i: usize = 0;
    assert(all.take(0) =~= Seq::empty());
    while i < entries.len()
        invariant
            i <= entries@.len(),
            all == refs_view(entries@),
            rows_view(rows@) == imported(had, all.take(i as int)),
        decreases entries.len() - i,
    {
        assert(all.take(i + 1).drop_last() =~= all.take(i as int));
        assert(all.take(i + 1).last() == entries@[i as int]@);
        if find(rows, entries[i].id.as_str()).is_none() {
            let ghost was = rows_view(rows@);
            let row = Row::from_entry(entries[i]);
            rows.push(row);
            assert(rows_view(rows@) =~= was.push(row@));
        }
        i = i + 1;
    }
    assert(all.take(i as int) =~= all);
}

/// What the rows are stored as.
pub open spec fn stored_rows(rows: Seq<RowView>) -> Seq<EntryView> {
    Seq::new(rows.len(), |i: int| rows[i].stored())
}

/// Put what the rows are stored as into the queue.
pub fn persist(rows: &Vec<Row>, queue: &mut DownloadQueue)
    ensures
        final(queue)@ == queue::filled_with(old(queue)@, stored_rows(rows_view(rows@))),
{
    let ghost had = queue@;
    let ghost all = stored_rows(rows_view(rows@));
    let mut i: usize = 0;
    assert(all.take(0) =~= Seq::empty());
    while i < rows.len()
        invariant
            i <= rows@.len(),
            all == stored_rows(rows_view(rows@)),
            queue@ == queue::filled_with(had, all.take(i as int)),
        decreases rows.len() - i,
    {
        assert(all.take(i + 1).drop_last() =~= all.take(i as int));
        assert(all.take(i + 1).last() == rows@[i as int]@.stored());
        queue.add(rows[i].to_entry());
        i = i + 1;
    }
    assert(all.take(i as int) =~= all);
}

/// The fingerprints under which the rows were last stored.
#[derive(Debug)]
pub struct Fingerprints {
    list: Vec<(String, String)>,
}

spec fn prints_view(list: Seq<(String, String)>) -> Map<Seq<char>, Seq<char>>
    decreases list.len(),
{
    if list.len() == 0 {
        Map::empty()
    } else {
        prints_view(list.drop_last()).insert(list.last().0@, list.last().1@)
    }
}

impl View for Fingerprints {
    type V = Map<Seq<char>, Seq<char>>;

    closed spec fn view(&self) -> Map<Seq<char>, Seq<char>> {
        prints_view(self.list@)
    }
}

/// The fingerprints after the rows have been looked at.
pub open spec fn noted(prints: Map<Seq<char>, Seq<char>>, rows: Seq<RowView>) -> Map<
    Seq<char>,
    Seq<char>,
>
    decreases rows.len(),
{
    if rows.len() == 0 {
        prints
    } else {
        noted(prints, rows.drop_last()).insert(rows.last().id, rows.last().print())
    }
}

/// Whether one of the rows has another fingerprint than is noted of it.
pub open spec fn has_news(prints: Map<Seq<char>, Seq<char>>, rows: Seq<RowView>) -> bool
    decreases rows.len(),
{
    rows.len() > 0 && (has_news(prints, rows.drop_last()) || noted(prints, rows.drop_last()).get(
        rows.last().id,
    ) != Some(rows.last().print()))
}

impl Fingerprints {
    /// Nothing noted.
    pub fn new() -> (r: Self)
        ensures
            r@ == Map::<Seq<char>, Seq<char>>::empty(),
    {
        Fingerprints { list: Vec::new() }
    }

    fn known(&self, id: &str, print: &str) -> (r: bool)
        ensures
            r == (self@.get(id@) == Some(print@)),
    {
        let ghost all = self.list@;
        let mut n: usize = self.list.len();
        assert(all.take(n as int) =~= all);
        while n > 0
            invariant
                n <= self.list@.len(),
                all == self.list@,
                self@.get(id@) == prints_view(all.take(n as int)).get(id@),
            decreases n,
        {
            assert(all.take(n as int).drop_last() =~= all.take(n - 1));
            assert(all.take(n as int).last() == all[n - 1]);
            if same_text(self.list[n - 1].0.as_str(), id) {
                return same_text(self.list[n - 1].1.as_str(), print);
            }
            n = n - 1;
        }
        false
    }

    /// Forget a row.
    pub fn forget(&mut self, id: &str)
        ensures
            final(self)@ == old(self)@.remove(id@),
    {
        let mut left: Vec<(String, String)> = Vec::new();
        let ghost all = self.list@;
        let mut i: usize = 0;
        assert(prints_view(left@) =~= prints_view(all.take(0)).remove(id@));
        while i < self.list.len()
            invariant
                i <= self.list@.len(),
                all == self.list@,
                prints_view(left@) == prints_view(all.take(i as int)).remove(id@),
            decreases self.list.len() - i,
        {
            assert(all.take(i + 1).drop_last() =~= all.take(i as int));
            assert(all.take(i + 1).last() == all[i as int]);
            if !same_text(self.list[i].0.as_str(), id) {
                let ghost was = left@;
                left.push((self.list[i].0.clone(), self.list[i].1.clone()));
                assert(left@.drop_last() =~= was);
            }
            assert(prints_view(left@) =~= prints_view(all.take(i + 1)).remove(id@));
            i = i + 1;
        }
        assert(all.take(i as int) =~= all);
        self.list = left;
    }

    fn note(&mut self, id: String, print: String)
        ensures
            final(self)@ == old(self)@.insert(id@, print@),
    {
        let ghost had = self@;
        self.forget(id.as_str());
        let ghost was = self.list@;
        self.list.push((id, print));
        assert(self.list@.drop_last() =~= was);
        assert(self@ =~= had.insert(id@, print@));
    }

    /// Note the fingerprints of the rows; returns whether one of them is new.
    pub fn update(&mut self, rows: &Vec<Row>) -> (r: bool)
        ensures
            r == has_news(old(self)@, rows_view(rows@)),
            final(self)@ == noted(old(self)@, rows_view(rows@)),
    {
        let ghost had = self@;
        let ghost all = rows_view(rows@);
        let mut changed = false;
        let mut i: usize = 0;
        assert(all.take(0) =~= Seq::empty());
        while i < rows.len()
            invariant
                i <= rows@.len(),
                all == rows_view(rows@),
                self@ == noted(had, all.take(i as int)),
                changed == has_news(had, all.take(i as int)),
            decreases rows.len() - i,
        {
            assert(all.take(i + 1).drop_last() =~= all.take(i as int));
            assert(all.take(i + 1).last() == rows@[i as int]@);
            let print = rows[i].fingerprint();
            if !self.known(rows[i].id.as_str(), print.as_str()) {
                changed = true;
                self.note(rows[i].id.clone(), print);
            } else {
                assert(self@ =~= self@.insert(rows@[i as int].id@, print@));
            }
            i = i + 1;
        }
        assert(all.take(i as int) =~= all);
        changed
    }
}

/// What can be done with a row.
#[derive(Debug, Clone, Copy, PartialEq, Eq, Structural)]
pub enum RowAction {
    Start,
    Pause,
    Resume,
    Retry,
    /// Open the folder of the file.
    Folder,
    /// Download again from scratch.
    Again,
    Remove,
}

impl RowAction {
    /// The action as it is shown.
    pub open spec fn shown(self) -> Seq<char> {
        match self {
            RowAction::Start => "Start"@,
            RowAction::Pause => "Pause"@,
            RowAction::Resume => "Resume"@,
            RowAction::Retry => "Retry"@,
            RowAction::Folder => "Folder"@,
            RowAction::Again => "Again"@,
            RowAction::Remove => "Remove"@,
        }
    }

    /// The action as it is shown.
    pub fn label(self) -> (r: &'static str)
        ensures
            r@ == self.shown(),
    {
        match self {
            RowAction::Start => "Start",
            RowAction::Pause => "Pause",
            RowAction::Resume => "Resume",
            RowAction::Retry => "Retry",
            RowAction::Folder => "Folder",
            RowAction::Again => "Again",
            RowAction::Remove => "Remove",
        }
    }
}

/// What can be done with a row of a status; it can always be removed.
pub open spec fn actions_for(status: RowStatus) -> Seq<RowAction> {
    match status {
        RowStatus::Downloading => seq![RowAction::Pause, RowAction::Remove],
        RowStatus::Finished => seq![RowAction::Folder, RowAction::Again, RowAction::Remove],
        RowStatus::Failed => seq![RowAction::Retry, RowAction::Remove],
        RowStatus::Paused => seq![RowAction::Resume, RowAction::Remove],
        RowStatus::Queued => seq![RowAction::Start, RowAction::Remove],
    }
}

/// What can be done with a row of a status.
pub fn row_actions(status: RowStatus) -> (r: Vec<RowAction>)
    ensures
        r@ == actions_for(status),
{
    let r = match status {
        RowStatus::Downloading => vec![RowAction::Pause, RowAction::Remove],
        RowStatus::Finished => vec![RowAction::Folder, RowAction::Again, RowAction::Remove],
        RowStatus::Failed => vec![RowAction::Retry, RowAction::Remove],
        RowStatus::Paused => vec![RowAction::Resume, RowAction::Remove],
        RowStatus::Queued => vec![RowAction::Start, RowAction::Remove],
    };
    assert(r@ =~= actions_for(status));
    r
}

/// The row of a stored download has its id, its URL, its name, its bytes and its
/// size; a size of zero counts as none. It waits where the download was waiting
/// or downloading, is not running, and what it is stored as keeps all of that.
pub proof fn stored_download_is_shown(e: EntryView, row: RowView)
    ensures
        RowView::of(e).id == e.id,
        RowView::of(e).url == e.url,
        RowView::of(e).file_name == e.file_name,
        RowView::of(e).downloaded == e.downloaded_bytes,
        e.total_bytes matches Some(t) ==> t > 0 ==> RowView::of(e).total == Some(t),
        e.total_bytes == Some(0u64) || e.total_bytes is None ==> RowView::of(e).total is None,
        !RowView::of(e).running,
        RowView::of(e).status == RowStatus::Queued <==> e.status == DownloadStatus::Queued
            || e.status == DownloadStatus::Downloading,
        RowView::of(e).status == RowStatus::Paused <==> e.status == DownloadStatus::Paused,
        RowView::of(e).status == RowStatus::Finished <==> e.status == DownloadStatus::Finished,
        RowView::of(e).status == RowStatus::Failed <==> e.status == DownloadStatus::Failed,
        row.stored().id == row.id,
        row.stored().url == row.url,
        row.stored().file_name == row.file_name,
        row.stored().downloaded_bytes == row.downloaded,
        row.status == RowStatus::Downloading ==> row.stored().status == DownloadStatus::Downloading,
{
}

/// The row that is found has the id, and none before it does; none is found only
/// where none has it.
pub proof fn first_row_is_found(rows: Seq<RowView>, id: Seq<char>)
    ensures
        row_index(rows, id) <= rows.len(),
        row_index(rows, id) < rows.len() ==> rows[row_index(rows, id) as int].id == id,
        forall|i: int| 0 <= i < row_index(rows, id) ==> (#[trigger] rows[i]).id != id,
    decreases rows.len(),
{
    if rows.len() > 0 && rows[0].id != id {
        first_row_is_found(rows.skip(1), id);
        assert(forall|i: int| 0 < i < rows.len() ==> rows.skip(1)[i - 1] == #[trigger] rows[i]);
    }
}

/// The rows that are busy are those with a worker, counted.
pub proof fn busy_rows_have_workers(rows: Seq<RowView>)
    ensures
        busy_rows(rows) == rows.filter(|row: RowView| row.running).len(),
    decreases rows.len(),
{
    reveal(Seq::filter);
    if rows.len() > 0 {
        busy_rows_have_workers(rows.drop_last());
    }
}

/// Removing a row leaves all rows with other ids, in their order, and no other; a
/// row that is busy is not removed.
pub proof fn other_rows_are_left(rows: Seq<RowView>, id: Seq<char>)
    ensures
        rows_without(rows, id) == rows.filter(|row: RowView| row.id != id),
        is_busy(rows, id) ==> exists|i: int|
            0 <= i < rows.len() && (#[trigger] rows[i]).id == id && rows[i].running,
        (forall|i: int| 0 <= i < rows.len() && (#[trigger] rows[i]).id == id ==> rows[i].running)
            && (exists|i: int| 0 <= i < rows.len() && (#[trigger] rows[i]).id == id) ==> is_busy(
            rows,
            id,
        ),
    decreases rows.len(),
{
    reveal(Seq::filter);
    first_row_is_found(rows, id);
    if rows.len() > 0 {
        other_rows_are_left(rows.drop_last(), id);
    } else {
        assert(rows =~= Seq::empty());
    }
    let i = row_index(rows, id) as int;
    if i < rows.len() {
        assert(rows[i].id == id);
    }
}

/// Importing keeps the rows that are there, gives every stored download a row,
/// and adds no row for an id that has one.
pub proof fn every_download_gets_one_row(rows: Seq<RowView>, entries: Seq<EntryView>)
    ensures
        imported(rows, entries).len() >= rows.len(),
        forall|i: int|
            0 <= i < rows.len() ==> imported(rows, entries)[i] == #[trigger] rows[i],
        forall|i: int|
            0 <= i < entries.len() ==> row_index(
                imported(rows, entries),
                (#[trigger] entries[i]).id,
            ) < imported(rows, entries).len(),
        forall|i: int, k: int|
            rows.len() <= k < imported(rows, entries).len() && 0 <= i < k ==> (
            #[trigger] imported(rows, entries)[i]).id != (#[trigger] imported(rows, entries)[k]).id,
        forall|k: int|
            rows.len() <= k < imported(rows, entries).len() ==> exists|i: int|
                0 <= i < entries.len() && #[trigger] imported(rows, entries)[k] == RowView::of(
                    #[trigger] entries[i],
                ),
    decreases entries.len(),
{
    if entries.len() > 0 {
        let init = entries.drop_last();
        let n = entries.len() - 1;
        let e = entries.last();
        every_download_gets_one_row(rows, init);
        let head = imported(rows, init);
        let all = imported(rows, entries);
        first_row_is_found(head, e.id);
        if row_index(head, e.id) >= head.len() {
            assert(all == head.push(RowView::of(e)));
            assert(all[head.len() as int].id == e.id);
            first_row_is_found(all, e.id);
            assert forall|i: int| 0 <= i < entries.len() implies row_index(
                all,
                (#[trigger] entries[i]).id,
            ) < all.len() by {
                if i < n {
                    assert(init[i] == entries[i]);
                    let at = row_index(head, entries[i].id) as int;
                    first_row_is_found(head, entries[i].id);
                    first_row_is_found(all, entries[i].id);
                    assert(all[at].id == entries[i].id);
                }
            }
            assert forall|i: int, k: int| rows.len() <= k < all.len() && 0 <= i < k implies (
            #[trigger] all[i]).id != (#[trigger] all[k]).id by {
                assert(all[i] == head[i]);
                if k < head.len() {
                    assert(all[k] == head[k]);
                }
            }
            assert forall|k: int| rows.len() <= k < all.len() implies exists|i: int|
                0 <= i < entries.len() && #[trigger] all[k] == RowView::of(
                    #[trigger] entries[i],
                ) by {
                if k < head.len() {
                    assert(all[k] == head[k]);
                    let i = choose|i: int|
                        0 <= i < init.len() && head[k] == RowView::of(#[trigger] init[i]);
                    assert(all[k] == RowView::of(entries[i]));
                } else {
                    assert(all[k] == RowView::of(entries[n]));
                }
            }
        } else {
            assert forall|i: int| 0 <= i < entries.len() implies row_index(
                all,
                (#[trigger] entries[i]).id,
            ) < all.len() by {
                if i < n {
                    assert(init[i] == entries[i]);
                }
            }
            assert forall|k: int| rows.len() <= k < all.len() implies exists|i: int|
                0 <= i < entries.len() && #[trigger] all[k] == RowView::of(
                    #[trigger] entries[i],
                ) by {
                let i = choose|i: int|
                    0 <= i < init.len() && head[k] == RowView::of(#[trigger] init[i]);
                assert(all[k] == RowView::of(entries[i]));
            }
        }
    }
}

/// Rows of different ids that are stored are found in the queue under their ids,
/// as they are stored, and nothing else changes.
pub proof fn stored_rows_are_found(q: queue::QueueView, rows: Seq<RowView>, i: int, id: Seq<char>)
    requires
        queue::distinct(q),
        0 <= i < rows.len(),
        forall|a: int, b: int|
            0 <= a < b < rows.len() ==> (#[trigger] rows[a]).id != (#[trigger] rows[b]).id,
    ensures
        queue::entry_of(queue::filled_with(q, stored_rows(rows)), rows[i].id) == Some(
            rows[i].stored(),
        ),
        (forall|a: int| 0 <= a < rows.len() ==> (#[trigger] rows[a]).id != id) ==> queue::entry_of(
            queue::filled_with(q, stored_rows(rows)),
            id,
        ) == queue::entry_of(q, id),
{
    let list = stored_rows(rows);
    assert forall|a: int, b: int| 0 <= a < b < list.len() implies (#[trigger] list[a]).id != (
    #[trigger] list[b]).id by {
        assert(rows[a].id != rows[b].id);
    }
    queue::filled_entries_are_found(q, list, id);
    assert(list[i].id == rows[i].id);
    if forall|a: int| 0 <= a < rows.len() ==> (#[trigger] rows[a]).id != id {
        assert forall|a: int| 0 <= a < list.len() implies (#[trigger] list[a]).id != id by {
            assert(rows[a].id != id);
        }
    }
}

/// There is news exactly where a row, the ids being different, has another
/// fingerprint than is noted of it; once the rows are noted there is none.
pub proof fn news_is_what_is_not_noted(prints: Map<Seq<char>, Seq<char>>, rows: Seq<RowView>)
    requires
        forall|a: int, b: int|
            0 <= a < b < rows.len() ==> (#[trigger] rows[a]).id != (#[trigger] rows[b]).id,
    ensures
        has_news(prints, rows) <==> exists|i: int|
            0 <= i < rows.len() && prints.get((#[trigger] rows[i]).id) != Some(rows[i].print()),
        forall|i: int|
            0 <= i < rows.len() ==> noted(prints, rows).get((#[trigger] rows[i]).id) == Some(
                rows[i].print(),
            ),
        forall|id: Seq<char>|
            (forall|i: int| 0 <= i < rows.len() ==> (#[trigger] rows[i]).id != id)
                ==> #[trigger] noted(prints, rows).get(id) == prints.get(id),
    decreases rows.len(),
{
    if rows.len() > 0 {
        let init = rows.drop_last();
        let n = rows.len() - 1;
        let last = rows.last();
        assert forall|a: int, b: int| 0 <= a < b < init.len() implies (#[trigger] init[a]).id != (
        #[trigger] init[b]).id by {
            assert(rows[a].id != rows[b].id);
        }
        news_is_what_is_not_noted(prints, init);
        assert forall|i: int| 0 <= i < init.len() implies (#[trigger] init[i]).id != last.id by {
            assert(rows[i].id != rows[n].id);
        }
        assert(noted(prints, init).get(last.id) == prints.get(last.id));
        if has_news(prints, init) {
            let i = choose|i: int|
                0 <= i < init.len() && prints.get((#[trigger] init[i]).id) != Some(init[i].print());
            assert(prints.get(rows[i].id) != Some(rows[i].print()));
        }
        if prints.get(last.id) != Some(last.print()) {
            assert(prints.get(rows[n].id) != Some(rows[n].print()));
        }
        if exists|i: int|
            0 <= i < rows.len() && prints.get((#[trigger] rows[i]).id) != Some(rows[i].print()) {
            let i = choose|i: int|
                0 <= i < rows.len() && prints.get((#[trigger] rows[i]).id) != Some(rows[i].print());
            if i < n {
                assert(prints.get(init[i].id) != Some(init[i].print()));
            }
        }
        assert forall|i: int| 0 <= i < rows.len() implies noted(prints, rows).get(
            (#[trigger] rows[i]).id,
        ) == Some(rows[i].print()) by {
            if i < n {
                assert(rows[i].id != rows[n].id);
                assert(init[i] == rows[i]);
            }
        }
        assert forall|id: Seq<char>|
            (forall|i: int| 0 <= i < rows.len() ==> (#[trigger] rows[i]).id != id) implies
            #[trigger] noted(prints, rows).get(id) == prints.get(id) by {
            assert(rows[n].id != id);
            assert forall|i: int| 0 <= i < init.len() implies (#[trigger] init[i]).id != id by {
                assert(rows[i].id != id);
            }
            assert(noted(prints, init).get(id) == prints.get(id));
        }
    }
}

/// The queue has not drained while a row waits, downloads or is paused, nor where
/// nothing was finished; where all rows are finished it has.
pub proof fn waiting_rows_keep_the_queue(rows: Seq<RowView>, i: int)
    requires
        0 <= i < rows.len(),
    ensures
        rows[i].status == RowStatus::Queued || rows[i].status == RowStatus::Downloading
            || rows[i].status == RowStatus::Paused ==> !drained(rows),
        (forall|j: int| 0 <= j < rows.len() ==> (#[trigger] rows[j]).status == RowStatus::Finished)
            ==> drained(rows),
        (forall|j: int| 0 <= j < rows.len() ==> (#[trigger] rows[j]).status == RowStatus::Failed)
            ==> !drained(rows),
        !drained(Seq::empty()),
{
    assert(rows[i].status == rows[i].status);
}

/// What the monitor adds is the copied text without the white space around it,
/// begins with `http` in any case, and is not the one that was seen last; what
/// begins otherwise is only remembered, and nothing happens while it is off.
pub proof fn only_fresh_links_are_added(on: bool, text: Seq<char>, last: Seq<char>)
    requires
        text::is_ascii(text::trim(text)),
    ensures
        ({
            let link = text::trim(text);
            let fresh = on && !text::blank(text) && link != last;
            let http = text::stands_at(text::ascii_lower(link), "http"@, 0);
            &&& fresh && http ==> monitored(on, Some(text), last) == MonitorView::Add(link)
            &&& fresh && !http ==> monitored(on, Some(text), last) == MonitorView::Remember(link)
            &&& !fresh ==> monitored(on, Some(text), last) is Nothing
            &&& monitored(on, None, last) is Nothing
        }),
{
    let link = text::trim(text);
    let low = text::lower(link);
    text::blank_is_trimmed_away(text);
    let pat = "http"@;
    if pat.is_prefix_of(low) {
        assert forall|k: int| 0 <= k < pat.len() implies low[0 + k] == #[trigger] pat[k] by {
            assert(low.subrange(0, pat.len() as int)[k] == pat[k]);
        }
    }
    if text::stands_at(low, pat, 0) {
        assert forall|k: int| 0 <= k < pat.len() implies low.subrange(0, pat.len() as int)[k]
            == pat[k] by {
            assert(low[0 + k] == pat[k]);
        }
        assert(low.subrange(0, pat.len() as int) =~= pat);
    }
}

/// Every row can be removed; it can be started while it waits, paused while it
/// downloads, resumed while it is paused, retried once it has failed, and
/// opened or downloaded again once it is finished.
pub proof fn actions_fit_the_status(status: RowStatus)
    ensures
        actions_for(status).last() == RowAction::Remove,
        actions_for(status).contains(RowAction::Start) <==> status == RowStatus::Queued,
        actions_for(status).contains(RowAction::Pause) <==> status == RowStatus::Downloading,
        actions_for(status).contains(RowAction::Resume) <==> status == RowStatus::Paused,
        actions_for(status).contains(RowAction::Retry) <==> status == RowStatus::Failed,
        actions_for(status).contains(RowAction::Folder) <==> status == RowStatus::Finished,
        actions_for(status).contains(RowAction::Again) <==> status == RowStatus::Finished,
{
    let s = actions_for(status);
    assert(s[0] == s[0] && s[1] == s[1]);
    if status == RowStatus::Finished {
        assert(s[2] == RowAction::Remove);
    }
}

/// A download that has ended is not busy any more, and stays the download that it
/// was. A success is finished, with all its bytes where the size is known; a
/// cancel is a pause and any other failure is shown with its cause, and both
/// keep the bytes that are there.
pub proof fn ended_downloads_are_told_apart(row: RowView, cause: Seq<char>, cancelled: bool)
    ensures
        ({
            let ok = row.ended(None, cancelled);
            let bad = row.ended(Some(ErrorView::Http(cause)), cancelled);
            &&& !ok.running && !bad.running
            &&& ok.id == row.id && ok.url == row.url && ok.file_name == row.file_name && ok.total
                == row.total
            &&& bad.id == row.id && bad.url == row.url && bad.file_name == row.file_name
                && bad.total == row.total
            &&& ok.status == RowStatus::Finished
            &&& row.total matches Some(t) ==> t > 0 ==> ok.downloaded == t
            &&& row.total is None || row.total == Some(0u64) ==> ok.downloaded == row.downloaded
            &&& cancelled ==> bad.status == RowStatus::Paused
            &&& !cancelled ==> bad.status == RowStatus::Failed && cause.is_suffix_of(bad.detail)
                && cause.is_suffix_of(bad.status_shown())
            &&& bad.downloaded == row.downloaded
        }),
        forall|e: ErrorView|
            !cancelled ==> (#[trigger] row.ended(Some(e), cancelled)).status == RowStatus::Failed
                && row.ended(Some(e), cancelled).detail == e.text(),
        forall|e: ErrorView|
            cancelled ==> (#[trigger] row.ended(Some(e), cancelled)).status == RowStatus::Paused,
        row.begun().running,
        row.begun().status == RowStatus::Downloading,
        row.begun().downloaded == row.downloaded,
        row.begun().id == row.id && row.begun().url == row.url && row.begun().total == row.total,
{
    crate::error::message_ends_with_the_cause(cause);
    let text = ErrorView::Http(cause).text();
    let shown = "failed — "@ + text;
    let from = text.len() - cause.len();
    assert(text.subrange(from, text.len() as int) =~= cause);
    let n = "failed — "@.len();
    assert(shown.subrange(n + from, shown.len() as int) =~= text.subrange(from, text.len() as int));
}

/// A click starts a row that is there and not busy, and nothing is started
/// outside the scheduled window; without a schedule the time does not matter.
pub proof fn starts_keep_to_the_schedule(
    schedule: &Option<Schedule>,
    now: Moment,
    running: Option<bool>,
    r: StartStep,
)
    requires
        call_ensures(start_step, (schedule, now, running), r),
    ensures
        r == StartStep::Start ==> running == Some(false),
        r == StartStep::Start ==> (*schedule matches Some(s) ==> s.covers(now)),
        r == StartStep::Outside <==> (*schedule matches Some(s) && !s.covers(now)),
        running == Some(false) && *schedule is None ==> r == StartStep::Start,
        running == Some(false) && r != StartStep::Outside ==> r == StartStep::Start,
{
}

/// The machine is powered off only where that was asked for and every row has
/// ended, one of them with success.
pub proof fn shutdown_waits_for_the_rows(asked: bool, rows: &Vec<Row>, r: bool)
    requires
        call_ensures(shuts_down, (asked, rows), r),
    ensures
        r ==> asked,
        r ==> forall|i: int|
            0 <= i < rows@.len() ==> (#[trigger] rows@[i]).status == RowStatus::Finished
                || rows@[i].status == RowStatus::Failed,
        r ==> exists|i: int|
            0 <= i < rows@.len() && (#[trigger] rows@[i]).status == RowStatus::Finished,
        asked && rows@.len() > 0 && (forall|i: int|
            0 <= i < rows@.len() ==> (#[trigger] rows@[i]).status == RowStatus::Finished) ==> r,
{
    let all = rows_view(rows@);
    if r {
        let i = choose|i: int| 0 <= i < all.len() && (#[trigger] all[i]).status
            == RowStatus::Finished;
        assert(rows@[i].status == RowStatus::Finished);
        assert forall|i: int| 0 <= i < rows@.len() implies (#[trigger] rows@[i]).status
            == RowStatus::Finished || rows@[i].status == RowStatus::Failed by {
            assert(all[i].status == rows@[i].status);
        }
    }
    if rows@.len() > 0 && (forall|i: int|
        0 <= i < rows@.len() ==> (#[trigger] rows@[i]).status == RowStatus::Finished) {
        assert(rows@[0].status == RowStatus::Finished);
        assert(all[0].status == RowStatus::Finished);
        assert forall|i: int| 0 <= i < all.len() implies (#[trigger] all[i]).status
            == RowStatus::Finished by {
            assert(rows@[i].status == RowStatus::Finished);
        }
    }
}

/// Removing takes the rows with the id out and leaves the others in their order,
/// unless the row is busy: then nothing is removed.
pub proof fn removed_row_is_gone(rows: Vec<Row>, id: &str, r: (Vec<Row>, bool))
    requires
        call_ensures(remove_row, (rows, id), r),
    ensures
        !r.1 ==> rows_view(r.0@) == rows_view(rows@),
        !r.1 ==> exists|i: int|
            0 <= i < rows@.len() && (#[trigger] rows@[i]).id@ == id@ && rows@[i].running,
        r.1 ==> rows_view(r.0@) == rows_view(rows@).filter(|row: RowView| row.id != id@),
{
    let all = rows_view(rows@);
    other_rows_are_left(all, id@);
    if !r.1 {
        let i = choose|i: int|
            0 <= i < all.len() && (#[trigger] all[i]).id == id@ && all[i].running;
        assert(rows@[i].id@ == id@);
    }
}

} // verus!
