use ccdm::cancel::{check_signal, CancelFlag};
use ccdm::config::AppConfig;
use ccdm::error::{retry_wait, CcdmError, MAX_ATTEMPTS};
use ccdm::power::{shutdown_command, shutdown_failure, Platform};
use ccdm::schedule::{Moment, Schedule, ALL_DAYS, WEEKDAYS, WEEKEND};
use ccdm::speed_limiter::{millis_at, now_ms, SpeedLimiter};
use chrono::{Datelike, NaiveDate, Timelike};

#[test]
fn cancel_and_clear() {
    let flag = CancelFlag::new();
    assert!(!flag.is_cancelled());
    assert!(flag.check().is_ok());
    flag.cancel();
    assert!(flag.is_cancelled());
    assert!(flag.check().is_err());
    flag.clear();
    assert!(flag.check().is_ok());
}

#[test]
fn clones_share_state() {
    let flag = CancelFlag::new();
    let other = flag.clone();
    other.cancel();
    assert!(flag.is_cancelled());
}

#[test]
fn signal_stops_with_cancelled() {
    assert!(check_signal(false).is_ok());
    assert!(matches!(check_signal(true), Err(CcdmError::Cancelled)));
    assert!(!CancelFlag::default().is_cancelled());
}

#[test]
fn normalization_clamps() {
    let cfg = AppConfig {
        max_connections: 0,
        max_concurrent_downloads: 99,
        ..AppConfig::with_download_dir(".".into())
    }
    .normalized();
    assert_eq!(cfg.max_connections, 1);
    assert_eq!(cfg.max_concurrent_downloads, 10);
}

#[test]
fn config_save_load_roundtrip() {
    let cfg = AppConfig::with_download_dir("/dl".into()).normalized();
    let back = AppConfig::load(Some(cfg.clone()), "/other".into());
    assert_eq!(back.max_connections, cfg.max_connections);
    assert_eq!(back.download_dir, "/dl");
}

#[test]
fn missing_config_is_the_default() {
    let cfg = AppConfig::load(None, "/dl".into());
    assert_eq!(cfg.download_dir, "/dl");
    assert_eq!(cfg.max_connections, 8);
    assert_eq!(cfg.max_concurrent_downloads, 3);
    assert_eq!(cfg.speed_limit_kbps, 0);
    assert!(!cfg.enable_speed_limit);
    assert_eq!(cfg.proxy_url, None);
    assert!(!cfg.organize_by_category);
    assert_eq!(AppConfig::config_path(Some("/cfg")).as_deref(), Some("/cfg/ccdm/config.json"));
    assert_eq!(AppConfig::pick_download_dir(None, None), ".");
    assert_eq!(AppConfig::pick_download_dir(None, Some("/here".into())), "/here");
    assert_eq!(AppConfig::pick_download_dir(Some("/dl".into()), Some("/here".into())), "/dl");
}

#[test]
fn blank_proxy_is_dropped() {
    let mut cfg = AppConfig::with_download_dir(".".into());
    cfg.proxy_url = Some("  \t".into());
    assert_eq!(cfg.proxy(), None);
    assert_eq!(cfg.clone().normalized().proxy_url, None);
    cfg.proxy_url = Some(" http://127.0.0.1:8080 ".into());
    assert_eq!(cfg.proxy().as_deref(), Some("http://127.0.0.1:8080"));
    assert_eq!(
        cfg.clone().normalized().proxy_url.as_deref(),
        Some(" http://127.0.0.1:8080 ")
    );
}

#[test]
fn connections_are_bounded() {
    let cfg = AppConfig::with_download_dir(".".into());
    assert_eq!(cfg.connections(None), 8);
    assert_eq!(cfg.connections(Some(0)), 1);
    assert_eq!(cfg.connections(Some(16)), 16);
    assert_eq!(cfg.connections(Some(99)), 32);
}

#[test]
fn errors_tell_whether_to_retry() {
    assert_eq!(MAX_ATTEMPTS, 3);
    let transient = [
        CcdmError::Http("x".into()),
        CcdmError::Io("x".into()),
        CcdmError::Other("x".into()),
    ];
    for e in transient {
        assert!(e.is_transient());
        assert!(e.retries_after(1));
        assert!(e.retries_after(2));
        assert!(!e.retries_after(3));
    }
    let fatal = [
        CcdmError::InvalidUrl("x".into()),
        CcdmError::RangeNotSupported,
        CcdmError::Cancelled,
        CcdmError::Unsupported("x".into()),
    ];
    for e in fatal {
        assert!(!e.is_transient());
        assert!(!e.retries_after(1));
    }
}

#[test]
fn waits_grow_between_attempts() {
    assert_eq!(retry_wait(0), 1);
    assert_eq!(retry_wait(1), 2);
    assert_eq!(retry_wait(2), 4);
}

#[test]
fn errors_have_messages() {
    assert_eq!(CcdmError::Http("a".into()).message(), "http error: a");
    assert_eq!(CcdmError::Io("a".into()).message(), "io error: a");
    assert_eq!(CcdmError::InvalidUrl("a".into()).message(), "invalid url: a");
    assert_eq!(
        CcdmError::RangeNotSupported.message(),
        "server does not support range requests"
    );
    assert_eq!(CcdmError::Cancelled.message(), "download cancelled");
    assert_eq!(CcdmError::Unsupported("a".into()).message(), "unsupported media: a");
    assert_eq!(CcdmError::Other("a".into()).message(), "a");
}

#[test]
fn disabled_never_sleeps() {
    let mut l = SpeedLimiter::new(0, true);
    assert_eq!(l.throttle_delay_ms(1_000_000, 1000), 0);
    let mut l = SpeedLimiter::new(100, false);
    assert_eq!(l.throttle_delay_ms(1_000_000, 1000), 0);
}

#[test]
fn first_call_only_baselines() {
    let mut l = SpeedLimiter::new(100, true);
    assert_eq!(l.throttle_delay_ms(500, 1000), 0);
}

#[test]
fn too_fast_gets_delay() {
    // 100 KiB/s => 102.4 bytes/ms. 10240 bytes in 10ms should take 100ms.
    let mut l = SpeedLimiter::new(100, true);
    l.throttle_delay_ms(0, 1000);
    assert_eq!(l.throttle_delay_ms(10_240, 1010), 90);
}

#[test]
fn slow_enough_gets_no_delay() {
    let mut l = SpeedLimiter::new(100, true);
    l.throttle_delay_ms(0, 1000);
    // 100 bytes in 1000ms is way below the cap.
    assert_eq!(l.throttle_delay_ms(100, 2000), 0);
}

#[test]
fn delay_is_rounded_up_and_capped() {
    let mut l = SpeedLimiter::new(100, true);
    assert!(l.active());
    l.throttle_delay_ms(0, 1000);
    // 10241 bytes take a little more than 100ms.
    assert_eq!(l.throttle_delay_ms(10_241, 1010), 91);
    assert_eq!(l.sleep_ms(u64::MAX, 1011), 5_000);
    l.set_limit(0, true);
    assert!(!l.active());
    assert_eq!(l.sleep_ms(u64::MAX, 1012), 0);
}

#[test]
fn no_time_keeps_the_baseline() {
    let mut l = SpeedLimiter::new(100, true);
    l.throttle_delay_ms(0, 1000);
    assert_eq!(l.throttle_delay_ms(10_240, 1000), 0);
    assert_eq!(l.throttle_delay_ms(10_240, 1010), 90);
}

#[test]
fn clock_runs_since_the_epoch() {
    let here = std::time::SystemTime::now()
        .duration_since(std::time::UNIX_EPOCH)
        .unwrap()
        .as_millis();
    let there = now_ms();
    assert!(there >= here && there - here < 60_000);
}

#[test]
fn readings_are_counted_from_the_epoch() {
    let epoch = std::time::UNIX_EPOCH;
    let step = std::time::Duration::from_micros(1_500_999);
    assert_eq!(millis_at(epoch), 0);
    assert_eq!(millis_at(epoch + step), 1500);
    assert_eq!(millis_at(epoch - step), 0);
}

#[test]
fn command_shape() {
    for platform in [Platform::Windows, Platform::MacOs, Platform::Unix] {
        let (program, args) = shutdown_command(platform, 60);
        assert!(!program.is_empty());
        assert!(!args.is_empty());
    }
}

#[test]
fn shutdown_commands_are_exact() {
    let (program, args) = shutdown_command(Platform::Windows, 60);
    assert_eq!(program, "shutdown");
    assert_eq!(args, vec!["/s", "/t", "60", "/c", "ccdwonloadmanager: queue finished"]);
    let (program, args) = shutdown_command(Platform::MacOs, 60);
    assert_eq!(program, "osascript");
    assert_eq!(args, vec!["-e", "tell app \"System Events\" to shut down"]);
    assert_eq!(shutdown_command(Platform::Unix, 0).1, vec!["-h", "+1"]);
    assert_eq!(shutdown_command(Platform::Unix, 60).1, vec!["-h", "+1"]);
    assert_eq!(shutdown_command(Platform::Unix, 61).1, vec!["-h", "+2"]);
    assert_eq!(shutdown_failure("shutdown", true, "exit status: 0"), None);
    assert_eq!(
        shutdown_failure("shutdown", false, "exit status: 1").as_deref(),
        Some("shutdown exited with exit status: 1")
    );
}

fn at(y: i32, mo: u32, d: u32, h: u32, mi: u32) -> Moment {
    let t = NaiveDate::from_ymd_opt(y, mo, d).unwrap().and_hms_opt(h, mi, 0).unwrap();
    Moment {
        weekday: t.weekday().num_days_from_monday() as u8,
        hour: t.hour() as u8,
        minute: t.minute() as u8,
    }
}

#[test]
fn nightly_window() {
    // 2026-09-07 is a Monday.
    let sched = Schedule::nightly();
    assert!(sched.allows(at(2026, 9, 7, 2, 0)));
    assert!(!sched.allows(at(2026, 9, 7, 12, 0)));
    assert!(!sched.allows(at(2026, 9, 7, 6, 0))); // end exclusive
    assert!(sched.allows(at(2026, 9, 7, 1, 0)));
}

#[test]
fn weekday_mask() {
    let sched = Schedule { days: WEEKDAYS, start_minutes: 0, end_minutes: 1439 };
    assert!(sched.allows(at(2026, 9, 9, 12, 0))); // Wednesday
    assert!(!sched.allows(at(2026, 9, 12, 12, 0))); // Saturday
}

#[test]
fn overnight_window() {
    let sched = Schedule {
        days: ALL_DAYS,
        start_minutes: 1320, // 22:00
        end_minutes: 360,    // 06:00
    };
    assert!(sched.allows(at(2026, 9, 7, 23, 30)));
    assert!(sched.allows(at(2026, 9, 8, 5, 59)));
    assert!(!sched.allows(at(2026, 9, 8, 12, 0)));
}

#[test]
fn describe_shapes() {
    let nightly = Schedule::nightly().describe();
    assert!(nightly.starts_with("daily 01:00"), "got {nightly}");
    let never = Schedule { days: 0, start_minutes: 0, end_minutes: 60 }.describe();
    assert!(never.starts_with("never 00:00"), "got {never}");
}

#[test]
fn describe_is_exact() {
    let s = Schedule { days: WEEKEND, start_minutes: 605, end_minutes: 1439 };
    assert_eq!(s.describe(), "weekends 10:05–23:59");
    let s = Schedule { days: 0b0000101, start_minutes: 0, end_minutes: 60 };
    assert_eq!(s.describe(), "Mon,Wed 00:00–01:00");
    let s = Schedule { days: WEEKDAYS, start_minutes: 60, end_minutes: 360 };
    assert_eq!(s.describe(), "weekdays 01:00–06:00");
}

#[test]
fn hhmm_parses() {
    assert_eq!(Schedule::parse_hhmm("01:00"), Some(60));
    assert_eq!(Schedule::parse_hhmm("23:59"), Some(1439));
    assert_eq!(Schedule::parse_hhmm(" 6:05 "), Some(365));
    assert_eq!(Schedule::parse_hhmm("24:00"), None);
    assert_eq!(Schedule::parse_hhmm("12:60"), None);
    assert_eq!(Schedule::parse_hhmm("nope"), None);
}

#[test]
fn window_end_is_capped_to_the_day() {
    let s = Schedule { days: ALL_DAYS, start_minutes: 0, end_minutes: 5000 };
    assert!(s.allows(Moment { weekday: 6, hour: 23, minute: 58 }));
    assert!(!s.allows(Moment { weekday: 6, hour: 23, minute: 59 }));
}
