use ccdm::model::{DownloadEntry, DownloadStatus};
use ccdm::queue::DownloadQueue;
use ccdm::store::Store;

fn entry(id: &str) -> DownloadEntry {
    DownloadEntry::new(id.into(), format!("https://x/{id}"), format!("{id}.bin"))
}

#[test]
fn add_get_remove() {
    let mut q = DownloadQueue::new();
    q.add(entry("a"));
    assert_eq!(q.len(), 1);
    assert!(q.get("a").is_some());
    assert!(q.remove("a"));
    assert!(q.is_empty());
}

#[test]
fn pause_resume_cycle() {
    let mut q = DownloadQueue::new();
    q.add(entry("a"));
    assert!(q.pause("a"));
    assert_eq!(q.get("a").unwrap().status, DownloadStatus::Paused);
    assert!(q.resume("a"));
    assert_eq!(q.get("a").unwrap().status, DownloadStatus::Queued);
}

#[test]
fn next_queued_skips_paused() {
    let mut q = DownloadQueue::new();
    q.add(entry("a"));
    q.add(entry("b"));
    q.pause("a");
    assert_eq!(q.next_queued(), Some("b"));
}

#[test]
fn replacing_keeps_the_place() {
    let mut q = DownloadQueue::default();
    q.add(entry("a"));
    q.add(entry("b"));
    let mut again = entry("a");
    again.file_name = "other.bin".into();
    q.add(again);
    let names: Vec<&str> = q.iter_ordered().iter().map(|e| e.file_name.as_str()).collect();
    assert_eq!(names, vec!["other.bin", "b.bin"]);
    assert_eq!(q.len(), 2);
}

#[test]
fn status_changes_only_where_allowed() {
    let mut q = DownloadQueue::new();
    q.add(entry("a"));
    assert!(!q.resume("a"));
    q.get_mut("a").unwrap().status = DownloadStatus::Finished;
    assert!(!q.pause("a"));
    assert!(!q.resume("a"));
    q.get_mut("a").unwrap().status = DownloadStatus::Failed;
    assert!(q.pause("a"));
    assert!(!q.pause("a"));
    assert!(!q.pause("missing"));
    assert!(!q.resume("missing"));
    assert!(!q.remove("missing"));
    assert!(q.get_mut("missing").is_none());
    assert_eq!(q.next_queued(), None);
}

#[test]
fn store_save_load_roundtrip() {
    let mut store = Store::load_from("queue.json".into(), None);
    assert!(store.queue().is_empty());

    let mut entry = DownloadEntry::with_plan(
        "a".into(),
        "https://x/a.bin".into(),
        "a.bin".into(),
        Some(10),
        2,
    );
    entry.status = DownloadStatus::Paused;
    store.queue_mut().add(entry);
    let saved = store.save();
    assert_eq!(saved.version, 1);

    let back = Store::load_from("queue.json".into(), Some(saved));
    let got = back.queue().get("a").unwrap();
    assert_eq!(got.status, DownloadStatus::Paused);
    assert_eq!(got.chunks.len(), 2);
    assert_eq!(back.queue().iter_ordered().len(), 1);
}

#[test]
fn saved_order_comes_back() {
    let mut store = Store::new("q.json".into());
    for id in ["c", "a", "b"] {
        store.queue_mut().add(entry(id));
    }
    let back = Store::load(Some("q.json".into()), Some(store.save()));
    let ids: Vec<&str> = back.queue().iter_ordered().iter().map(|e| e.id.as_str()).collect();
    assert_eq!(ids, vec!["c", "a", "b"]);
    assert_eq!(back.path(), "q.json");
}

#[test]
fn store_without_a_place_uses_the_current_directory() {
    let mut store = Store::new("elsewhere.json".into());
    store.queue_mut().add(entry("a"));
    let back = Store::load(None, Some(store.save()));
    assert_eq!(back.path(), "queue.json");
    assert!(back.queue().is_empty());
    assert_eq!(Store::default_path(Some("/cfg")).as_deref(), Some("/cfg/ccdm/queue.json"));
    assert_eq!(Store::default_path(None), None);
}
