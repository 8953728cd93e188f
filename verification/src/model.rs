//! Download model: entries, chunks, statuses.

use vstd::prelude::*;

use crate::segmented::{self, plan_segments};
use crate::text::{self, append, chars_of, decimal_of, string_of};

verus! {

/// Lifecycle of one download.
#[derive(Debug, Clone, Copy, PartialEq, Eq, Structural)]
pub enum DownloadStatus {
    /// Waiting in the queue.
    Queued,
    /// Actively downloading.
    Downloading,
    /// Paused by the user (resumable).
    Paused,
    /// Fully downloaded and assembled.
    Finished,
    /// Failed; see logs / error attached by the caller.
    Failed,
}

impl Default for DownloadStatus {
    fn default() -> (r: Self)
        ensures
            r == DownloadStatus::Queued,
    {
        DownloadStatus::Queued
    }
}

/// State of a single chunk.
#[derive(Debug, Clone, Copy, PartialEq, Eq, Structural)]
pub enum ChunkState {
    /// Ready to be (re)downloaded.
    Ready,
    /// Being downloaded right now.
    InProgress,
    /// Done.
    Finished,
    /// Failed but worth retrying (timeout, reset, ...).
    FailedTransient,
    /// Failed fatally (e.g. HTTP 404 on this segment).
    FailedFatal,
}

impl Default for ChunkState {
    fn default() -> (r: Self)
        ensures
            r == ChunkState::Ready,
    {
        ChunkState::Ready
    }
}

/// State of a progressive segment.
#[derive(Debug, Clone, Copy, PartialEq, Eq, Structural)]
pub enum SegmentState {
    /// Not started yet.
    NotStarted,
    /// Currently downloading.
    Downloading,
    /// Done.
    Finished,
    /// Failed.
    Failed,
}

impl Default for SegmentState {
    fn default() -> (r: Self)
        ensures
            r == SegmentState::NotStarted,
    {
        SegmentState::NotStarted
    }
}

/// One byte-range of a download.
#[derive(Debug, Clone)]
pub struct Chunk {
    /// Stable id, e.g. `"<download-id>#3"`.
    pub id: String,
    /// Source URL.
    pub url: String,
    /// First byte of this chunk in the final file.
    pub offset: u64,
    /// Length in bytes, if known.
    pub size: Option<u64>,
    /// Bytes already written for this chunk.
    pub downloaded: u64,
    /// Current state.
    pub state: ChunkState,
}

/// The contents of a [`Chunk`].
#[verifier::ext_equal]
pub struct ChunkView {
    pub id: Seq<char>,
    pub url: Seq<char>,
    pub offset: u64,
    pub size: Option<u64>,
    pub downloaded: u64,
    pub state: ChunkState,
}

impl View for Chunk {
    type V = ChunkView;

    open spec fn view(&self) -> ChunkView {
        ChunkView {
            id: self.id@,
            url: self.url@,
            offset: self.offset,
            size: self.size,
            downloaded: self.downloaded,
            state: self.state,
        }
    }
}

pub open spec fn chunks_view(v: Seq<Chunk>) -> Seq<ChunkView> {
    Seq::new(v.len(), |i: int| v[i]@)
}

impl ChunkView {
    /// A chunk of which nothing has been downloaded.
    pub open spec fn fresh(id: Seq<char>, url: Seq<char>, offset: u64, size: Option<u64>) -> Self {
        ChunkView { id, url, offset, size, downloaded: 0, state: ChunkState::Ready }
    }

    /// Bytes still missing, if the size is known; a chunk that holds more
    /// than its size misses none.
    pub open spec fn missing(self) -> Option<nat> {
        match self.size {
            Some(s) => Some(
                if s > self.downloaded {
                    (s - self.downloaded) as nat
                } else {
                    0
                },
            ),
            None => None,
        }
    }
}

impl Chunk {
    /// Create a fresh `Ready` chunk.
    pub fn new(id: String, url: String, offset: u64, size: Option<u64>) -> (r: Self)
        ensures
            r@ == ChunkView::fresh(id@, url@, offset, size),
    {
        Chunk { id, url, offset, size, downloaded: 0, state: ChunkState::Ready }
    }

    /// Bytes still missing, if the size is known.
    pub fn remaining(&self) -> (r: Option<u64>)
        ensures
            (match r {
                Some(n) => Some(n as nat),
                None => None,
            }) == self@.missing(),
    {
        match self.size {
            Some(s) => Some(s.saturating_sub(self.downloaded)),
            None => None,
        }
    }

    /// A copy of the chunk.
    pub fn copy(&self) -> (r: Self)
        ensures
            r@ == self@,
    {
        Chunk {
            id: self.id.clone(),
            url: self.url.clone(),
            offset: self.offset,
            size: self.size,
            downloaded: self.downloaded,
            state: self.state,
        }
    }
}

/// One download job.
#[derive(Debug, Clone)]
pub struct DownloadEntry {
    /// Stable unique id.
    pub id: String,
    /// Source URL.
    pub url: String,
    /// Target file name (no directory).
    pub file_name: String,
    /// Current lifecycle state.
    pub status: DownloadStatus,
    /// Total size in bytes, if the server told us.
    pub total_bytes: Option<u64>,
    /// Bytes downloaded across all chunks.
    pub downloaded_bytes: u64,
    /// Segments this download is split into.
    pub chunks: Vec<Chunk>,
    /// Per-entry connection override (None = follow current default).
    pub segments: Option<usize>,
}

/// The contents of a [`DownloadEntry`].
#[verifier::ext_equal]
pub struct EntryView {
    pub id: Seq<char>,
    pub url: Seq<char>,
    pub file_name: Seq<char>,
    pub status: DownloadStatus,
    pub total_bytes: Option<u64>,
    pub downloaded_bytes: u64,
    pub chunks: Seq<ChunkView>,
    pub segments: Option<usize>,
}

impl View for DownloadEntry {
    type V = EntryView;

    open spec fn view(&self) -> EntryView {
        EntryView {
            id: self.id@,
            url: self.url@,
            file_name: self.file_name@,
            status: self.status,
            total_bytes: self.total_bytes,
            downloaded_bytes: self.downloaded_bytes,
            chunks: chunks_view(self.chunks@),
            segments: self.segments,
        }
    }
}

/// The bytes that a list of chunks holds.
pub open spec fn held(chunks: Seq<ChunkView>) -> nat
    decreases chunks.len(),
{
    if chunks.len() == 0 {
        0
    } else {
        held(chunks.drop_last()) + chunks.last().downloaded as nat
    }
}

/// The bytes that a list of chunks is to hold, a size that is not known
/// counting for none.
pub open spec fn sized(chunks: Seq<ChunkView>) -> nat
    decreases chunks.len(),
{
    if chunks.len() == 0 {
        0
    } else {
        sized(chunks.drop_last()) + match chunks.last().size {
            Some(s) => s as nat,
            None => 0,
        }
    }
}

/// The id of chunk `i` of a download.
pub open spec fn chunk_id(id: Seq<char>, i: nat) -> Seq<char> {
    id + "#"@ + text::decimal(i)
}

/// A chunk for each of a list of ranges.
pub open spec fn chunks_for(id: Seq<char>, url: Seq<char>, ranges: Seq<(nat, nat)>) -> Seq<
    ChunkView,
> {
    Seq::new(
        ranges.len(),
        |i: int|
            ChunkView::fresh(
                chunk_id(id, i as nat),
                url,
                ranges[i].0 as u64,
                Some((ranges[i].1 - ranges[i].0 + 1) as u64),
            ),
    )
}

impl EntryView {
    /// A queued download of which nothing is known but where it comes from.
    pub open spec fn fresh(id: Seq<char>, url: Seq<char>, file_name: Seq<char>) -> Self {
        EntryView {
            id,
            url,
            file_name,
            status: DownloadStatus::Queued,
            total_bytes: None,
            downloaded_bytes: 0,
            chunks: Seq::empty(),
            segments: None,
        }
    }

    /// A queued download with a chunk for each segment that its size, where
    /// it is known, is split into.
    pub open spec fn planned(
        id: Seq<char>,
        url: Seq<char>,
        file_name: Seq<char>,
        total: Option<u64>,
        segments: nat,
    ) -> Self {
        EntryView {
            total_bytes: total,
            chunks: match total {
                Some(t) => chunks_for(
                    id,
                    url,
                    segmented::planned(
                        t as nat,
                        if segments == 0 {
                            1
                        } else {
                            segments
                        },
                    ),
                ),
                None => Seq::empty(),
            },
            ..EntryView::fresh(id, url, file_name)
        }
    }

    /// Progress as downloaded bytes of total bytes, if the total size is
    /// known and not zero; never more than the whole.
    pub open spec fn done_of(self) -> Option<(u64, u64)> {
        match self.total_bytes {
            Some(t) => if t == 0 {
                None
            } else if self.downloaded_bytes < t {
                Some((self.downloaded_bytes, t))
            } else {
                Some((t, t))
            },
            None => None,
        }
    }
}

/// The chunks of a planned download have as many bytes as the file.
pub proof fn planned_chunks_add_up(
    id: Seq<char>,
    url: Seq<char>,
    file_name: Seq<char>,
    total: u64,
    segments: nat,
)
    ensures
        sized(EntryView::planned(id, url, file_name, Some(total), segments).chunks) == total,
{
    let max: nat = if segments == 0 {
        1
    } else {
        segments
    };
    let ranges = segmented::planned(total as nat, max);
    segmented::plan_adds_up(total as nat, max);
    segmented::lemma_plan_bounds(total as nat, max);
    lemma_sized(id, url, ranges, total as nat, ranges.len());
    let chunks = chunks_for(id, url, ranges);
    assert(chunks.take(ranges.len() as int) =~= chunks);
    assert(ranges.take(ranges.len() as int) =~= ranges);
}

proof fn lemma_sized(id: Seq<char>, url: Seq<char>, ranges: Seq<(nat, nat)>, total: nat, n: nat)
    requires
        n <= ranges.len(),
        total <= u64::MAX,
        forall|i: int|
            0 <= i < ranges.len() ==> 0 <= (#[trigger] ranges[i]).0 <= ranges[i].1 < total,
    ensures
        sized(chunks_for(id, url, ranges).take(n as int)) == segmented::covered(ranges.take(n as int)),
    decreases n,
{
    let chunks = chunks_for(id, url, ranges);
    if n > 0 {
        lemma_sized(id, url, ranges, total, (n - 1) as nat);
        assert(chunks.take(n as int).drop_last() =~= chunks.take(n - 1));
        assert(ranges.take(n as int).drop_last() =~= ranges.take(n - 1));
        assert(chunks.take(n as int).last() == chunks[n - 1]);
        assert(0 <= ranges[n - 1].0 <= ranges[n - 1].1 < total);
    }
}

/// Progress is a fraction between nothing and the whole.
pub proof fn progress_is_a_fraction(e: EntryView)
    ensures
        e.done_of() matches Some((done, total)) ==> 0 < total && done <= total,
{
}

fn make_chunk_id(id: &str, i: usize) -> (r: String)
    ensures
        r@ == chunk_id(id@, i as nat),
{
    let mut out = chars_of(id);
    append(&mut out, chars_of("#").as_slice());
    append(&mut out, decimal_of(i as u128).as_slice());
    string_of(out.as_slice())
}

impl DownloadEntry {
    /// Create a new queued entry.
    pub fn new(id: String, url: String, file_name: String) -> (r: Self)
        ensures
            r@ == EntryView::fresh(id@, url@, file_name@),
    {
        let r = DownloadEntry {
            id,
            url,
            file_name,
            status: DownloadStatus::Queued,
            total_bytes: None,
            downloaded_bytes: 0,
            chunks: Vec::new(),
            segments: None,
        };
        assert(r@.chunks =~= Seq::empty());
        r
    }

    /// Create a queued entry with `segments` planned chunks for a known
    /// size.
    pub fn with_plan(
        id: String,
        url: String,
        file_name: String,
        total_bytes: Option<u64>,
        segments: usize,
    ) -> (r: Self)
        ensures
            r@ == EntryView::planned(id@, url@, file_name@, total_bytes, segments as nat),
    {
        let mut chunks: Vec<Chunk> = Vec::new();
        assert(chunks_view(chunks@) =~= Seq::empty());
        if let Some(total) = total_bytes {
            let wanted: usize = if segments == 0 {
                1
            } else {
                segments
            };
            let ranges = plan_segments(total, wanted);
            let ghost plan = segmented::planned(total as nat, wanted as nat);
            proof {
                segmented::lemma_plan_bounds(total as nat, wanted as nat);
            }
            let mut i: usize = 0;
            while i < ranges.len()
                invariant
                    i <= ranges.len(),
                    plan == segmented::ranges_view(ranges@),
                    chunks@.len() == i,
                    forall|j: int|
                        0 <= j < plan.len() ==> (#[trigger] plan[j]).0 <= plan[j].1 < total,
                    forall|j: int|
                        0 <= j < i ==> (#[trigger] chunks@[j])@ == chunks_for(id@, url@, plan)[j],
                decreases ranges.len() - i,
            {
                let (start, end) = ranges[i];
                assert(plan[i as int].0 == start && plan[i as int].1 == end);
                chunks.push(
                    Chunk::new(
                        make_chunk_id(id.as_str(), i),
                        url.clone(),
                        start,
                        Some(end - start + 1),
                    ),
                );
                i = i + 1;
            }
            assert(chunks_view(chunks@) =~= chunks_for(id@, url@, plan));
        }
        DownloadEntry {
            id,
            url,
            file_name,
            status: DownloadStatus::Queued,
            total_bytes,
            downloaded_bytes: 0,
            chunks,
            segments: None,
        }
    }

    /// Overall progress as `(downloaded, total)`, if the total size is known.
    pub fn progress(&self) -> (r: Option<(u64, u64)>)
        ensures
            r == self@.done_of(),
    {
        match self.total_bytes {
            None => None,
            Some(total) => if total == 0 {
                None
            } else if self.downloaded_bytes < total {
                Some((self.downloaded_bytes, total))
            } else {
                Some((total, total))
            },
        }
    }

    /// Recompute `downloaded_bytes` from the chunks.
    pub fn sync_from_chunks(&mut self)
        requires
            held(old(self)@.chunks) <= u64::MAX,
        ensures
            final(self)@ == (EntryView {
                downloaded_bytes: held(old(self)@.chunks) as u64,
                ..old(self)@
            }),
    {
        let ghost all = self@.chunks;
        let mut sum: u64 = 0;
        let mut i: usize = 0;
        while i < self.chunks.len()
            invariant
                i <= self.chunks.len(),
                *self == *old(self),
                all == self@.chunks,
                held(all) <= u64::MAX,
                sum == held(all.take(i as int)),
            decreases self.chunks.len() - i,
        {
            assert(all.take(i + 1).drop_last() =~= all.take(i as int));
            assert(all.take(i + 1).last() == self.chunks@[i as int]@);
            proof {
                lemma_held_grows(all, i + 1);
            }
            sum = sum + self.chunks[i].downloaded;
            i = i + 1;
        }
        assert(all.take(i as int) =~= all);
        self.downloaded_bytes = sum;
    }

    /// A copy of the entry.
    pub fn copy(&self) -> (r: Self)
        ensures
            r@ == self@,
    {
        let mut chunks: Vec<Chunk> = Vec::new();
        let mut i: usize = 0;
        while i < self.chunks.len()
            invariant
                i <= self.chunks.len(),
                chunks@.len() == i,
                forall|j: int| 0 <= j < i ==> (#[trigger] chunks@[j])@ == self.chunks@[j]@,
            decreases self.chunks.len() - i,
        {
            chunks.push(self.chunks[i].copy());
            i = i + 1;
        }
        assert(chunks_view(chunks@) =~= chunks_view(self.chunks@));
        DownloadEntry {
            id: self.id.clone(),
            url: self.url.clone(),
            file_name: self.file_name.clone(),
            status: self.status,
            total_bytes: self.total_bytes,
            downloaded_bytes: self.downloaded_bytes,
            chunks,
            segments: self.segments,
        }
    }
}

proof fn lemma_held_grows(chunks: Seq<ChunkView>, n: int)
    requires
        0 <= n <= chunks.len(),
    ensures
        held(chunks.take(n)) <= held(chunks),
    decreases chunks.len(),
{
    if n < chunks.len() {
        lemma_held_grows(chunks.drop_last(), n);
        assert(chunks.drop_last().take(n) =~= chunks.take(n));
    } else {
        assert(chunks.take(n) =~= chunks);
    }
}

/// The chunks of a planned download lie one behind the other: the first begins at
/// the first byte, each begins where the one before it ends, and the last ends
/// with the file. All are ready, none holds anything yet, and each comes from
/// the URL of the download.
pub proof fn planned_chunks_are_contiguous(
    id: Seq<char>,
    url: Seq<char>,
    file_name: Seq<char>,
    total: u64,
    segments: nat,
)
    requires
        total > 0,
    ensures
        ({
            let chunks = EntryView::planned(id, url, file_name, Some(total), segments).chunks;
            let wanted = if segments == 0 {
                1
            } else {
                segments
            };
            &&& chunks.len() == (if wanted < total { wanted } else { total as nat })
            &&& chunks[0].offset == 0
            &&& chunks.last().offset + chunks.last().size->0 == total
            &&& forall|i: int|
                0 <= i < chunks.len() ==> {
                    &&& (#[trigger] chunks[i]).size is Some
                    &&& chunks[i].size->0 > 0
                    &&& chunks[i].downloaded == 0
                    &&& chunks[i].state == ChunkState::Ready
                    &&& chunks[i].url == url
                }
            &&& forall|i: int, j: int|
                0 <= i < chunks.len() && 0 <= j < chunks.len() && j == i + 1 ==> (
                #[trigger] chunks[j]).offset == (#[trigger] chunks[i]).offset + chunks[i].size->0
        }),
{
    let max: nat = if segments == 0 {
        1
    } else {
        segments
    };
    let ranges = segmented::planned(total as nat, max);
    lemma_plan(total as nat, max);
    segmented::lemma_plan_bounds(total as nat, max);
    lemma_contiguous(id, url, ranges, total);
}

proof fn lemma_plan(total: nat, max: nat)
    requires
        total > 0,
        max > 0,
    ensures
        segmented::planned(total, max).len() == (if max < total {
            max
        } else {
            total
        }),
        segmented::planned(total, max)[0].0 == 0,
        segmented::planned(total, max).last().1 == total - 1,
        forall|i: int, j: int|
            0 <= i < segmented::planned(total, max).len() && 0 <= j < segmented::planned(
                total,
                max,
            ).len() && j == i + 1 ==> (#[trigger] segmented::planned(total, max)[j]).0 == (
            #[trigger] segmented::planned(total, max)[i]).1 + 1,
{
    segmented::plan_is_contiguous(total, max);
    assert forall|i: int, j: int|
        0 <= i < segmented::planned(total, max).len() && 0 <= j < segmented::planned(
            total,
            max,
        ).len() && j == i + 1 implies (#[trigger] segmented::planned(total, max)[j]).0 == (
    #[trigger] segmented::planned(total, max)[i]).1 + 1 by {
        assert(segmented::planned(total, max)[j].0 == segmented::planned(total, max)[j - 1].1 + 1);
    }
}

proof fn lemma_contiguous(id: Seq<char>, url: Seq<char>, ranges: Seq<(nat, nat)>, total: u64)
    requires
        ranges.len() > 0,
        ranges[0].0 == 0,
        ranges.last().1 == total - 1,
        forall|i: int| 0 <= i < ranges.len() ==> (#[trigger] ranges[i]).0 <= ranges[i].1 < total,
        forall|i: int, j: int|
            0 <= i < ranges.len() && 0 <= j < ranges.len() && j == i + 1 ==> (
            #[trigger] ranges[j]).0 == (#[trigger] ranges[i]).1 + 1,
    ensures
        ({
            let chunks = chunks_for(id, url, ranges);
            &&& chunks.len() == ranges.len()
            &&& chunks[0].offset == 0
            &&& chunks.last().offset + chunks.last().size->0 == total
            &&& forall|i: int|
                0 <= i < chunks.len() ==> {
                    &&& (#[trigger] chunks[i]).size is Some
                    &&& chunks[i].size->0 > 0
                    &&& chunks[i].downloaded == 0
                    &&& chunks[i].state == ChunkState::Ready
                    &&& chunks[i].url == url
                }
            &&& forall|i: int, j: int|
                0 <= i < chunks.len() && 0 <= j < chunks.len() && j == i + 1 ==> (
                #[trigger] chunks[j]).offset == (#[trigger] chunks[i]).offset + chunks[i].size->0
        }),
{
    let chunks = chunks_for(id, url, ranges);
    let n = ranges.len() - 1;
    assert(ranges[n].0 <= ranges[n].1 < total);
    assert(chunks.last() == chunks[n]);
    assert forall|i: int| 0 <= i < chunks.len() implies {
        &&& (#[trigger] chunks[i]).size is Some
        &&& chunks[i].size->0 > 0
        &&& chunks[i].downloaded == 0
        &&& chunks[i].state == ChunkState::Ready
        &&& chunks[i].url == url
    } by {
        assert(ranges[i].0 <= ranges[i].1 < total);
    }
    assert forall|i: int, j: int|
        0 <= i < chunks.len() && 0 <= j < chunks.len() && j == i + 1 implies (
    #[trigger] chunks[j]).offset == (#[trigger] chunks[i]).offset + chunks[i].size->0 by {
        assert(ranges[i].0 <= ranges[i].1 < total);
        assert(ranges[j].0 <= ranges[j].1 < total);
        assert(ranges[j].0 == ranges[i].1 + 1);
    }
}

/// The ids of the chunks of a download are all different.
pub proof fn chunk_ids_differ(id: Seq<char>, i: nat, j: nat)
    ensures
        chunk_id(id, i) == chunk_id(id, j) <==> i == j,
{
    reveal_strlit("#");
    text::decimal_reads_back(i);
    text::decimal_reads_back(j);
    let n = id.len() as int + 1;
    assert(chunk_id(id, i).skip(n) =~= text::decimal(i));
    assert(chunk_id(id, j).skip(n) =~= text::decimal(j));
}

/// A new download waits, under the id and with the URL and the name that it was
/// given, and nothing of it is there.
pub proof fn new_download_waits(id: Seq<char>, url: Seq<char>, file_name: Seq<char>)
    ensures
        EntryView::fresh(id, url, file_name).id == id,
        EntryView::fresh(id, url, file_name).url == url,
        EntryView::fresh(id, url, file_name).file_name == file_name,
        EntryView::fresh(id, url, file_name).status == DownloadStatus::Queued,
        EntryView::fresh(id, url, file_name).downloaded_bytes == 0,
        EntryView::fresh(id, url, file_name).total_bytes is None,
        EntryView::fresh(id, url, file_name).chunks.len() == 0,
        EntryView::planned(id, url, file_name, None, 1) == EntryView::fresh(id, url, file_name),
{
}

/// What the chunks hold adds up over any cut, and one chunk counts for what is
/// downloaded of it.
pub proof fn held_bytes_add_up(a: Seq<ChunkView>, b: Seq<ChunkView>, c: ChunkView)
    ensures
        held(a + b) == held(a) + held(b),
        held(seq![c]) == c.downloaded,
        held(Seq::empty()) == 0,
    decreases b.len(),
{
    let one = seq![c];
    assert(one.drop_last() =~= Seq::empty());
    assert(held(one.drop_last()) == 0);
    if b.len() > 0 {
        held_bytes_add_up(a, b.drop_last(), c);
        assert((a + b).drop_last() =~= a + b.drop_last());
        assert((a + b).last() == b.last());
    } else {
        assert(a + b =~= a);
    }
}

/// What a chunk misses and what it holds make its size; one that holds more than
/// that misses nothing, and of an unknown size nothing is said.
pub proof fn missing_and_held_make_the_size(c: ChunkView)
    ensures
        match c.missing() {
            Some(m) => c.size matches Some(s) && (if c.downloaded <= s {
                m + c.downloaded == s
            } else {
                m == 0
            }),
            None => c.size is None,
        },
{
}

/// Progress is known exactly where the size is and is not zero; it is what was
/// downloaded, and the whole from there on.
pub proof fn progress_is_what_was_downloaded(e: EntryView)
    ensures
        match e.done_of() {
            Some((done, total)) => {
                &&& e.total_bytes == Some(total)
                &&& total > 0
                &&& e.downloaded_bytes <= total ==> done == e.downloaded_bytes
                &&& e.downloaded_bytes > total ==> done == total
            },
            None => e.total_bytes is None || e.total_bytes == Some(0u64),
        },
{
}

} // verus!
