use ccdm::config::AppConfig;
use ccdm::error::CcdmError;
use ccdm::model::{DownloadEntry, DownloadStatus};
use ccdm::queue::DownloadQueue;
use ccdm::rows::{
    active_rows, copied_link, find, import_entries, is_listed, monitor_step, persist, remove_row,
    row_actions, shuts_down, start_step, Fingerprints, MonitorStep, Row, RowAction, RowStatus,
    StartStep,
};
use ccdm::schedule::{Moment, Schedule};
use ccdm::toolbar::{
    config_summary, connections_label, cycle_conns, cycle_speed, monitor_label, organize_label,
    sched_label, shutdown_label, speed_shown, stats_line, toggle_organize, ListOptions, Notice,
    SpeedShown,
};

fn row(id: &str) -> Row {
    Row::new(id.into(), format!("https://x/{id}"), format!("{id}.bin"))
}

#[test]
fn rows_come_from_the_queue_and_go_back() {
    let mut e = DownloadEntry::new("a".into(), "https://x/a".into(), "a.bin".into());
    e.status = DownloadStatus::Downloading;
    e.downloaded_bytes = 7;
    e.total_bytes = Some(0);
    let r = Row::from_entry(&e);
    assert_eq!(r.status, RowStatus::Queued);
    assert_eq!(r.downloaded, 7);
    assert_eq!(r.total, None);
    let mut r = row("b");
    r.status = RowStatus::Downloading;
    r.total = Some(9);
    let back = r.to_entry();
    assert_eq!(back.status, DownloadStatus::Downloading);
    assert_eq!(back.total_bytes, Some(9));
    assert_eq!(Row::from_entry(&back).status, RowStatus::Queued);
}

#[test]
fn fingerprints_ignore_running_bytes() {
    let mut r = row("a");
    assert_eq!(r.fingerprint(), "Queued:0");
    r.downloaded = 12;
    assert_eq!(r.fingerprint(), "Queued:12");
    r.status = RowStatus::Downloading;
    assert_eq!(r.fingerprint(), "Downloading");
}

#[test]
fn changes_are_noted_once() {
    let mut seen = Fingerprints::new();
    let mut rows = vec![row("a"), row("b")];
    assert!(seen.update(&rows));
    assert!(!seen.update(&rows));
    rows[1].status = RowStatus::Paused;
    assert!(seen.update(&rows));
    assert!(!seen.update(&rows));
    seen.forget("a");
    assert!(seen.update(&rows));
}

#[test]
fn a_run_ends_finished_paused_or_failed() {
    let mut r = row("a");
    r.total = Some(10);
    r.begin();
    assert!(r.running);
    assert_eq!(r.status, RowStatus::Downloading);
    r.end(Ok(()), false);
    assert!(!r.running);
    assert_eq!(r.status, RowStatus::Finished);
    assert_eq!(r.downloaded, 10);
    r.begin();
    r.end(Err(CcdmError::Cancelled), true);
    assert_eq!(r.status, RowStatus::Paused);
    r.begin();
    r.end(Err(CcdmError::Http("x".into())), false);
    assert_eq!(r.status, RowStatus::Failed);
    assert_eq!(r.status_text(), "failed — http error: x");
    assert_eq!(row("b").status_text(), "queued");
    assert_eq!(r.fraction(), Some((10, 10)));
    assert_eq!(row("b").fraction(), None);
}

#[test]
fn rows_are_found_and_removed() {
    let mut rows = vec![row("a"), row("b")];
    assert_eq!(find(&rows, "b"), Some(1));
    assert_eq!(find(&rows, "c"), None);
    assert!(is_listed(&rows, "https://x/a"));
    assert!(!is_listed(&rows, "https://x/c"));
    rows[0].running = true;
    let (rows, done) = remove_row(rows, "a");
    assert!(!done);
    assert_eq!(rows.len(), 2);
    let (rows, done) = remove_row(rows, "b");
    assert!(done);
    assert_eq!(rows.len(), 1);
    assert_eq!(rows[0].id, "a");
}

#[test]
fn busy_rows_are_counted() {
    let mut rows = vec![row("a"), row("b"), row("c")];
    assert_eq!(active_rows(&rows), 0);
    rows[0].running = true;
    rows[2].running = true;
    assert_eq!(active_rows(&rows), 2);
    assert_eq!(active_rows(&Vec::new()), 0);
}

#[test]
fn outside_entries_are_imported_once() {
    let mut queue = DownloadQueue::new();
    persist(&vec![row("a"), row("b")], &mut queue);
    assert_eq!(queue.len(), 2);
    let mut rows = vec![row("b")];
    import_entries(&mut rows, &queue.iter_ordered());
    let ids: Vec<&str> = rows.iter().map(|r| r.id.as_str()).collect();
    assert_eq!(ids, vec!["b", "a"]);
    import_entries(&mut rows, &queue.iter_ordered());
    assert_eq!(rows.len(), 2);
}

#[test]
fn starts_are_gated_by_the_schedule() {
    let night = Moment { weekday: 0, hour: 2, minute: 0 };
    let noon = Moment { weekday: 0, hour: 12, minute: 0 };
    let sched = Some(Schedule::nightly());
    assert_eq!(start_step(&sched, noon, Some(false)), StartStep::Outside);
    assert_eq!(start_step(&sched, night, Some(false)), StartStep::Start);
    assert_eq!(start_step(&None, noon, Some(false)), StartStep::Start);
    assert_eq!(start_step(&None, noon, Some(true)), StartStep::Nothing);
    assert_eq!(start_step(&None, noon, None), StartStep::Nothing);
}

#[test]
fn machine_is_powered_off_after_a_drained_queue() {
    let mut rows = vec![row("a"), row("b")];
    rows[0].status = RowStatus::Finished;
    assert!(!shuts_down(true, &rows));
    rows[1].status = RowStatus::Failed;
    assert!(shuts_down(true, &rows));
    assert!(!shuts_down(false, &rows));
    rows[0].status = RowStatus::Failed;
    assert!(!shuts_down(true, &rows));
    assert!(!shuts_down(true, &Vec::new()));
}

#[test]
fn clipboard_links_are_added_once() {
    assert_eq!(copied_link(Some(" x ")).as_deref(), Some("x"));
    assert_eq!(copied_link(Some("  ")), None);
    assert_eq!(copied_link(None), None);
    match monitor_step(true, Some(" HTTPS://x/a "), "") {
        MonitorStep::Add(link) => {
            assert_eq!(link, "HTTPS://x/a");
            assert!(matches!(
                monitor_step(true, Some(" HTTPS://x/a "), &link),
                MonitorStep::Nothing
            ));
        }
        other => panic!("{other:?}"),
    }
    assert!(matches!(monitor_step(true, Some("note"), ""), MonitorStep::Remember(_)));
    assert!(matches!(monitor_step(false, Some("https://x/a"), ""), MonitorStep::Nothing));
}

#[test]
fn every_status_has_its_actions() {
    assert_eq!(row_actions(RowStatus::Queued), vec![RowAction::Start, RowAction::Remove]);
    assert_eq!(row_actions(RowStatus::Downloading), vec![RowAction::Pause, RowAction::Remove]);
    assert_eq!(row_actions(RowStatus::Paused), vec![RowAction::Resume, RowAction::Remove]);
    assert_eq!(row_actions(RowStatus::Failed), vec![RowAction::Retry, RowAction::Remove]);
    assert_eq!(row_actions(RowStatus::Finished), vec![RowAction::Folder, RowAction::Again, RowAction::Remove]);
    assert_eq!(RowAction::Again.label(), "Again");
}

#[test]
fn buttons_cycle() {
    let mut c = AppConfig::with_download_dir("/dl".into());
    let mut speeds = Vec::new();
    for _ in 0..7 {
        cycle_speed(&mut c);
        assert_eq!(c.enable_speed_limit, c.speed_limit_kbps > 0);
        speeds.push(c.speed_limit_kbps);
    }
    assert_eq!(speeds, vec![256, 512, 1024, 2048, 5120, 10240, 0]);
    c.speed_limit_kbps = 777;
    c.enable_speed_limit = true;
    cycle_speed(&mut c);
    assert_eq!(c.speed_limit_kbps, 256);
    let mut conns = Vec::new();
    for _ in 0..6 {
        cycle_conns(&mut c);
        conns.push(c.max_connections);
    }
    assert_eq!(conns, vec![16, 32, 1, 2, 4, 8]);
    c.max_connections = 5;
    cycle_conns(&mut c);
    assert_eq!(c.max_connections, 16);
}

#[test]
fn labels_show_the_settings() {
    let mut c = AppConfig::with_download_dir("/dl".into());
    let mut o = ListOptions::new();
    assert_eq!(speed_shown(&c), SpeedShown::Unlimited);
    assert_eq!(config_summary(&c), "dir: /dl | 8 conn | no speed cap");
    c.enable_speed_limit = true;
    c.speed_limit_kbps = 512;
    assert_eq!(speed_shown(&c), SpeedShown::Kib(512));
    assert_eq!(config_summary(&c), "dir: /dl | 8 conn | cap 512 KiB/s");
    c.speed_limit_kbps = 2048;
    assert_eq!(speed_shown(&c), SpeedShown::Mib(2048));
    assert_eq!(connections_label(&c), "Connections: 8");
    assert_eq!(organize_label(&c), "Organize: off");
    toggle_organize(&mut c);
    assert_eq!(organize_label(&c), "Organize: on");
    assert_eq!(monitor_label(&o), "Monitor: off");
    o.toggle_monitor();
    assert_eq!(monitor_label(&o), "Monitor: on");
    assert_eq!(sched_label(&o), "Sched: off");
    o.toggle_sched();
    assert_eq!(sched_label(&o), "Sched: daily 01:00–06:00");
    o.toggle_sched();
    assert_eq!(o.schedule, None);
    o.toggle_shutdown();
    assert_eq!(shutdown_label(&o), "Shutdown: on");
    assert_eq!(
        stats_line(3, 1, 6, "s"),
        "3 row(s), 1 active, 6 categories • s"
    );
}

#[test]
fn notices_are_exact() {
    assert_eq!(Notice::Added("f".into()).text(), "added f — hit Start");
    assert_eq!(Notice::Probing("u".into()).text(), "probing u …");
    assert_eq!(Notice::Busy.text(), "pause it before removing");
    assert_eq!(
        Notice::Outside("w".into()).text(),
        "outside scheduled window (w); toggle Sched to run now"
    );
    assert_eq!(Notice::ShutdownFailed("e".into()).text(), "shutdown failed: e");
}
