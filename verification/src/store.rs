//! Persisted download queue: a queue bound to a file, and the shape that it
//! has on disk.

use vstd::prelude::*;

use crate::model::{DownloadEntry, EntryView};
use crate::paths::{self, join_path};
use crate::queue::{self, DownloadQueue, QueueView};
use crate::text;

verus! {

/// The version of the shape on disk.
pub const QUEUE_VERSION: u32 = 1;

/// On-disk shape; `version` allows to migrate later.
#[derive(Debug)]
pub struct PersistedQueue {
    pub version: u32,
    pub entries: Vec<DownloadEntry>,
}

pub open spec fn entries_view(v: Seq<DownloadEntry>) -> Seq<EntryView> {
    Seq::new(v.len(), |i: int| v[i]@)
}

/// The entries read from a file; none where there is no file.
pub open spec fn read_entries(persisted: Option<PersistedQueue>) -> Seq<EntryView> {
    match persisted {
        Some(p) => entries_view(p.entries@),
        None => Seq::empty(),
    }
}

/// A [`DownloadQueue`] bound to a file.
#[derive(Debug)]
pub struct Store {
    path: String,
    queue: DownloadQueue,
}

/// The path and the queue of a [`Store`].
pub struct StoreView {
    pub path: Seq<char>,
    pub queue: QueueView,
}

impl View for Store {
    type V = StoreView;

    closed spec fn view(&self) -> StoreView {
        StoreView { path: self.path@, queue: self.queue@ }
    }
}

/// Where the queue file is kept below a config directory.
pub open spec fn queue_file(config_dir: Seq<char>) -> Seq<char> {
    paths::joined_path(paths::joined_path(config_dir, "ccdm"@), "queue.json"@)
}

impl Store {
    /// Empty in-memory queue bound to `path` (no IO performed).
    pub fn new(path: String) -> (r: Self)
        ensures
            r@ == (StoreView { path: path@, queue: Seq::empty() }),
    {
        Store { path, queue: DownloadQueue::new() }
    }

    /// Queue file path below the config dir, if one is known.
    pub fn default_path(config_dir: Option<&str>) -> (r: Option<String>)
        ensures
            text::opt_view(r) == (match text::str_view(config_dir) {
                Some(dir) => Some(queue_file(dir)),
                None => None,
            }),
    {
        match config_dir {
            Some(dir) => {
                let below = join_path(dir, "ccdm");
                Some(join_path(below.as_str(), "queue.json"))
            },
            None => None,
        }
    }

    /// The store at the default path with what the file there holds (missing
    /// file = empty queue); an empty store at `queue.json` where no default
    /// path is known.
    pub fn load(default_path: Option<String>, persisted: Option<PersistedQueue>) -> (r: Self)
        ensures
            r@ == (match default_path {
                Some(path) => StoreView {
                    path: path@,
                    queue: queue::filled_with(Seq::empty(), read_entries(persisted)),
                },
                None => StoreView { path: "queue.json"@, queue: Seq::empty() },
            }),
    {
        match default_path {
            Some(path) => Store::load_from(path, persisted),
            None => Store::new("queue.json".to_string()),
        }
    }

    /// The store at `path` with what the file there holds (missing file =
    /// empty queue).
    pub fn load_from(path: String, persisted: Option<PersistedQueue>) -> (r: Self)
        ensures
            r@ == (StoreView {
                path: path@,
                queue: queue::filled_with(Seq::empty(), read_entries(persisted)),
            }),
    {
        let mut queue = DownloadQueue::new();
        if let Some(p) = persisted {
            let ghost all = entries_view(p.entries@);
            let mut i: usize = 0;
            assert(all.take(0) =~= Seq::empty());
            while i < p.entries.len()
                invariant
                    i <= p.entries@.len(),
                    all == entries_view(p.entries@),
                    queue@ == queue::filled_with(Seq::empty(), all.take(i as int)),
                decreases p.entries.len() - i,
            {
                assert(all.take(i + 1).drop_last() =~= all.take(i as int));
                assert(all.take(i + 1).last() == all[i as int]);
                queue.add(p.entries[i].copy());
                i = i + 1;
            }
            assert(all.take(i as int) =~= all);
        }
        Store { path, queue }
    }

    /// What is written to the file: the queue, insertion order preserved.
    pub fn save(&self) -> (r: PersistedQueue)
        ensures
            r.version == QUEUE_VERSION,
            entries_view(r.entries@) == queue::entries_of(self@.queue),
    {
        let list = self.queue.iter_ordered();
        let mut entries: Vec<DownloadEntry> = Vec::new();
        let mut i: usize = 0;
        while i < list.len()
            invariant
                i <= list@.len(),
                entries@.len() == i,
                forall|j: int| 0 <= j < i ==> (#[trigger] entries@[j])@ == list@[j]@,
            decreases list.len() - i,
        {
            entries.push(list[i].copy());
            i = i + 1;
        }
        assert(entries_view(entries@) =~= queue::entries_of(self@.queue));
        PersistedQueue { version: QUEUE_VERSION, entries }
    }

    /// File backing this store.
    pub fn path(&self) -> (r: &str)
        ensures
            r@ == self@.path,
    {
        self.path.as_str()
    }

    /// Read access to the queue.
    pub fn queue(&self) -> (r: &DownloadQueue)
        ensures
            r@ == self@.queue,
    {
        &self.queue
    }

    /// Modify the queue (remember to [`save`](Self::save) afterwards).
    pub fn queue_mut(&mut self) -> (r: &mut DownloadQueue)
        ensures
            r@ == old(self)@.queue,
            final(self)@ == (StoreView { queue: final(r)@, ..old(self)@ }),
    {
        &mut self.queue
    }
}

/// What was saved comes back: loading the entries that a store wrote gives its
/// queue again, in the same order, as long as every entry stands under its own
/// id.
pub proof fn saved_queue_comes_back(queue: QueueView, written: PersistedQueue)
    requires
        queue::distinct(queue),
        queue::own_ids(queue),
        entries_view(written.entries@) == queue::entries_of(queue),
    ensures
        queue::filled_with(Seq::empty(), read_entries(Some(written))) == queue,
{
    queue::entries_make_the_queue(queue);
}

/// The queue file lies in the program's own folder below the config directory.
pub proof fn queue_file_is_below_the_config_dir(config_dir: Seq<char>)
    requires
        config_dir.len() > 0,
        config_dir[config_dir.len() - 1] != '/',
    ensures
        queue_file(config_dir) == config_dir + "/ccdm/queue.json"@,
{
    reveal_strlit("ccdm");
    reveal_strlit("queue.json");
    reveal_strlit("/ccdm/queue.json");
    let below = paths::joined_path(config_dir, "ccdm"@);
    assert(below =~= config_dir.push('/') + "ccdm"@);
    assert(below.last() == 'm');
    assert(below.push('/') + "queue.json"@ =~= config_dir + "/ccdm/queue.json"@);
}

} // verus!
