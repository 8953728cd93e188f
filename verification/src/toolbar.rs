//! The toolbar: the settings that its buttons change, what the buttons show,
//! and the notices.

use vstd::prelude::*;

use crate::config::{AppConfig, ConfigView};
use crate::error::concat;
use crate::schedule::{self, Schedule};
use crate::text::{self, append, chars_of, decimal_of, string_of};

verus! {

/// Settings of the list that are not part of the engine's.
#[derive(Debug, Clone, Copy, PartialEq, Eq, Structural)]
pub struct ListOptions {
    /// Add links as they are copied.
    pub clipboard_monitor: bool,
    /// Start downloads only inside this window.
    pub schedule: Option<Schedule>,
    /// Power off when the queue has drained.
    pub shutdown_after_queue: bool,
}

impl ListOptions {
    /// Everything off.
    pub fn new() -> (r: Self)
        ensures
            r == (ListOptions {
                clipboard_monitor: false,
                schedule: None,
                shutdown_after_queue: false,
            }),
    {
        ListOptions { clipboard_monitor: false, schedule: None, shutdown_after_queue: false }
    }

    /// Switch the clipboard monitor.
    pub fn toggle_monitor(&mut self)
        ensures
            *final(self) == (ListOptions {
                clipboard_monitor: !old(self).clipboard_monitor,
                ..*old(self)
            }),
    {
        self.clipboard_monitor = !self.clipboard_monitor;
    }

    /// Switch between no schedule and the nightly one.
    pub fn toggle_sched(&mut self)
        ensures
            *final(self) == (ListOptions {
                schedule: if old(self).schedule is Some {
                    None
                } else {
                    Some(
                        Schedule {
                            days: schedule::ALL_DAYS,
                            start_minutes: 60,
                            end_minutes: 360,
                        },
                    )
                },
                ..*old(self)
            }),
    {
        self.schedule = match self.schedule {
            Some(_) => None,
            None => Some(Schedule::nightly()),
        };
    }

    /// Switch powering off.
    pub fn toggle_shutdown(&mut self)
        ensures
            *final(self) == (ListOptions {
                shutdown_after_queue: !old(self).shutdown_after_queue,
                ..*old(self)
            }),
    {
        self.shutdown_after_queue = !self.shutdown_after_queue;
    }
}

/// Speed-cap steps cycled by the toolbar button (0 = unlimited).
pub open spec fn speed_steps() -> Seq<u32> {
    seq![0u32, 256u32, 512u32, 1024u32, 2048u32, 5120u32, 10240u32]
}

/// Per-download connection steps cycled by the toolbar button.
pub open spec fn conn_steps() -> Seq<usize> {
    seq![1usize, 2usize, 4usize, 8usize, 16usize, 32usize]
}

/// The speed cap after the current one; a cap that is no step is followed by
/// the first one above unlimited.
pub open spec fn speed_after(current: u32) -> u32 {
    if current == 256 {
        512
    } else if current == 512 {
        1024
    } else if current == 1024 {
        2048
    } else if current == 2048 {
        5120
    } else if current == 5120 {
        10240
    } else if current == 10240 {
        0
    } else {
        256
    }
}

/// The number of connections after the current one; a number that is no step
/// is taken for 8.
pub open spec fn conns_after(current: nat) -> nat {
    if current == 1 {
        2
    } else if current == 2 {
        4
    } else if current == 4 {
        8
    } else if current == 16 {
        32
    } else if current == 32 {
        1
    } else {
        16
    }
}

/// The speed button goes through all steps in order and begins again.
pub proof fn speed_cycles(i: int)
    requires
        0 <= i < speed_steps().len(),
    ensures
        speed_after(speed_steps()[i]) == speed_steps()[(i + 1) % speed_steps().len() as int],
{
    let s = speed_steps();
    assert(s.len() == 7);
    assert((i + 1) % 7 == if i == 6 {
        0
    } else {
        i + 1
    });
    assert(i == 0 || i == 1 || i == 2 || i == 3 || i == 4 || i == 5 || i == 6);
}

/// The connections button goes through all steps in order and begins again.
pub proof fn conns_cycle(i: int)
    requires
        0 <= i < conn_steps().len(),
    ensures
        conns_after(conn_steps()[i] as nat) == conn_steps()[(i + 1) % conn_steps().len() as int],
{
    let s = conn_steps();
    assert(s.len() == 6);
    assert((i + 1) % 6 == if i == 5 {
        0
    } else {
        i + 1
    });
    assert(i == 0 || i == 1 || i == 2 || i == 3 || i == 4 || i == 5);
}

/// The cap that applies; zero where none does.
pub open spec fn applied_cap(c: ConfigView) -> nat {
    if c.enable_speed_limit {
        c.speed_limit_kbps
    } else {
        0
    }
}

/// Cycle the global speed cap.
pub fn cycle_speed(config: &mut AppConfig)
    ensures
        final(config)@ == ({
            let next = speed_after(applied_cap(old(config)@) as u32);
            ConfigView {
                speed_limit_kbps: next as nat,
                enable_speed_limit: next > 0,
                ..old(config)@
            }
        }),
{
    let current: u32 = if config.enable_speed_limit {
        config.speed_limit_kbps
    } else {
        0
    };
    let next: u32 = if current == 256 {
        512
    } else if current == 512 {
        1024
    } else if current == 1024 {
        2048
    } else if current == 2048 {
        5120
    } else if current == 5120 {
        10240
    } else if current == 10240 {
        0
    } else {
        256
    };
    config.speed_limit_kbps = next;
    config.enable_speed_limit = next > 0;
}

/// Cycle per-download connections.
pub fn cycle_conns(config: &mut AppConfig)
    ensures
        final(config)@ == (ConfigView {
            max_connections: conns_after(old(config)@.max_connections),
            ..old(config)@
        }),
{
    let current: usize = config.max_connections;
    config.max_connections = if current == 1 {
        2
    } else if current == 2 {
        4
    } else if current == 4 {
        8
    } else if current == 16 {
        32
    } else if current == 32 {
        1
    } else {
        16
    };
}

/// Flip organize-into-category-folders.
pub fn toggle_organize(config: &mut AppConfig)
    ensures
        final(config)@ == (ConfigView {
            organize_by_category: !old(config)@.organize_by_category,
            ..old(config)@
        }),
{
    config.organize_by_category = !config.organize_by_category;
}

/// How the speed cap is shown.
#[derive(Debug, Clone, Copy, PartialEq, Eq, Structural)]
pub enum SpeedShown {
    Unlimited,
    /// In KiB/s.
    Kib(u32),
    /// In MiB/s; the cap is given in KiB/s.
    Mib(u32),
}

/// How the speed cap is shown: in MiB/s from 1 MiB/s on.
pub fn speed_shown(config: &AppConfig) -> (r: SpeedShown)
    ensures
        r == (if applied_cap(config@) == 0 {
            SpeedShown::Unlimited
        } else if applied_cap(config@) >= 1024 {
            SpeedShown::Mib(config.speed_limit_kbps)
        } else {
            SpeedShown::Kib(config.speed_limit_kbps)
        }),
{
    if !config.enable_speed_limit || config.speed_limit_kbps == 0 {
        SpeedShown::Unlimited
    } else if config.speed_limit_kbps >= 1024 {
        SpeedShown::Mib(config.speed_limit_kbps)
    } else {
        SpeedShown::Kib(config.speed_limit_kbps)
    }
}

/// `on` or `off`.
pub open spec fn on_off(on: bool) -> Seq<char> {
    if on {
        "on"@
    } else {
        "off"@
    }
}

fn switch_label(what: &str, on: bool) -> (r: String)
    ensures
        r@ == what@ + on_off(on),
{
    if on {
        concat(what, "on")
    } else {
        concat(what, "off")
    }
}

pub fn organize_label(config: &AppConfig) -> (r: String)
    ensures
        r@ == "Organize: "@ + on_off(config@.organize_by_category),
{
    switch_label("Organize: ", config.organize_by_category)
}

pub fn monitor_label(options: &ListOptions) -> (r: String)
    ensures
        r@ == "Monitor: "@ + on_off(options.clipboard_monitor),
{
    switch_label("Monitor: ", options.clipboard_monitor)
}

pub fn shutdown_label(options: &ListOptions) -> (r: String)
    ensures
        r@ == "Shutdown: "@ + on_off(options.shutdown_after_queue),
{
    switch_label("Shutdown: ", options.shutdown_after_queue)
}

pub fn sched_label(options: &ListOptions) -> (r: String)
    ensures
        r@ == (match options.schedule {
            Some(s) => "Sched: "@ + s.text(),
            None => "Sched: off"@,
        }),
{
    match options.schedule {
        Some(s) => concat("Sched: ", s.describe().as_str()),
        None => "Sched: off".to_string(),
    }
}

pub fn connections_label(config: &AppConfig) -> (r: String)
    ensures
        r@ == "Connections: "@ + text::decimal(config@.max_connections),
{
    let mut out = chars_of("Connections: ");
    append(&mut out, decimal_of(config.max_connections as u128).as_slice());
    string_of(out.as_slice())
}

/// The settings in short.
pub open spec fn summary(c: ConfigView) -> Seq<char> {
    "dir: "@ + c.download_dir + " | "@ + text::decimal(c.max_connections) + " conn | "@ + (if applied_cap(
        c,
    ) > 0 {
        "cap "@ + text::decimal(c.speed_limit_kbps) + " KiB/s"@
    } else {
        "no speed cap"@
    })
}

/// The settings in short.
pub fn config_summary(config: &AppConfig) -> (r: String)
    ensures
        r@ == summary(config@),
{
    let mut cap: Vec<char> = Vec::new();
    if config.enable_speed_limit && config.speed_limit_kbps > 0 {
        append(&mut cap, chars_of("cap ").as_slice());
        append(&mut cap, decimal_of(config.speed_limit_kbps as u128).as_slice());
        append(&mut cap, chars_of(" KiB/s").as_slice());
        assert(cap@ =~= "cap "@ + text::decimal(config@.speed_limit_kbps) + " KiB/s"@);
    } else {
        append(&mut cap, chars_of("no speed cap").as_slice());
        assert(cap@ =~= "no speed cap"@);
    }
    let mut out = chars_of("dir: ");
    append(&mut out, chars_of(config.download_dir.as_str()).as_slice());
    append(&mut out, chars_of(" | ").as_slice());
    append(&mut out, decimal_of(config.max_connections as u128).as_slice());
    append(&mut out, chars_of(" conn | ").as_slice());
    append(&mut out, cap.as_slice());
    string_of(out.as_slice())
}

/// The line under the title: how many rows there are, how many are active, how
/// many categories there are, and the settings in short.
pub fn stats_line(rows: usize, active: usize, categories: usize, settings: &str) -> (r: String)
    ensures
        r@ == text::decimal(rows as nat) + " row(s), "@ + text::decimal(active as nat) + " active, "@ + text::decimal(
            categories as nat,
        ) + " categories • "@ + settings@,
{
    let mut out = decimal_of(rows as u128);
    append(&mut out, chars_of(" row(s), ").as_slice());
    append(&mut out, decimal_of(active as u128).as_slice());
    append(&mut out, chars_of(" active, ").as_slice());
    append(&mut out, decimal_of(categories as u128).as_slice());
    append(&mut out, chars_of(" categories • ").as_slice());
    append(&mut out, chars_of(settings).as_slice());
    string_of(out.as_slice())
}

/// What the list tells its user.
#[derive(Debug, Clone)]
pub enum Notice {
    /// How to begin.
    Hint,
    Added(String),
    Probing(String),
    Pausing(String),
    BrowserAdded(String),
    NoText,
    Duplicate,
    Busy,
    QueueSaveFailed(String),
    ConfigSaveFailed(String),
    NoConfigDir,
    ProbeFailed(String),
    RuntimeError(String),
    NotFound,
    RevealFailed(String),
    Outside(String),
    ShuttingDown,
    ShutdownFailed(String),
}

impl Notice {
    /// The notice as it is shown.
    pub open spec fn shown(self) -> Seq<char> {
        match self {
            Notice::Hint => "Copy a download link, then hit “Add from clipboard”."@,
            Notice::Added(f) => "added "@ + f@ + " — hit Start"@,
            Notice::Probing(u) => "probing "@ + u@ + " …"@,
            Notice::Pausing(n) => "pausing "@ + n@ + " …"@,
            Notice::BrowserAdded(f) => "browser added "@ + f@,
            Notice::NoText => "clipboard has no text — copy a link first"@,
            Notice::Duplicate => "that URL is already in the list"@,
            Notice::Busy => "pause it before removing"@,
            Notice::QueueSaveFailed(e) => "queue save failed: "@ + e@,
            Notice::ConfigSaveFailed(e) => "config save failed: "@ + e@,
            Notice::NoConfigDir => "no config dir on this platform"@,
            Notice::ProbeFailed(e) => "probe failed: "@ + e@,
            Notice::RuntimeError(e) => "runtime error: "@ + e@,
            Notice::NotFound => "row not found"@,
            Notice::RevealFailed(e) => "cannot open folder: "@ + e@,
            Notice::Outside(w) => "outside scheduled window ("@ + w@
                + "); toggle Sched to run now"@,
            Notice::ShuttingDown => "queue complete, shutting down in 60s…"@,
            Notice::ShutdownFailed(e) => "shutdown failed: "@ + e@,
        }
    }

    /// The notice as it is shown.
    pub fn text(&self) -> (r: String)
        ensures
            r@ == self.shown(),
    {
        match self {
            Notice::Hint => "Copy a download link, then hit “Add from clipboard”.".to_string(),
            Notice::Added(f) => enclose("added ", f.as_str(), " — hit Start"),
            Notice::Probing(u) => enclose("probing ", u.as_str(), " …"),
            Notice::Pausing(n) => enclose("pausing ", n.as_str(), " …"),
            Notice::BrowserAdded(f) => concat("browser added ", f.as_str()),
            Notice::NoText => "clipboard has no text — copy a link first".to_string(),
            Notice::Duplicate => "that URL is already in the list".to_string(),
            Notice::Busy => "pause it before removing".to_string(),
            Notice::QueueSaveFailed(e) => concat("queue save failed: ", e.as_str()),
            Notice::ConfigSaveFailed(e) => concat("config save failed: ", e.as_str()),
            Notice::NoConfigDir => "no config dir on this platform".to_string(),
            Notice::ProbeFailed(e) => concat("probe failed: ", e.as_str()),
            Notice::RuntimeError(e) => concat("runtime error: ", e.as_str()),
            Notice::NotFound => "row not found".to_string(),
            Notice::RevealFailed(e) => concat("cannot open folder: ", e.as_str()),
            Notice::Outside(w) => enclose(
                "outside scheduled window (",
                w.as_str(),
                "); toggle Sched to run now",
            ),
            Notice::ShuttingDown => "queue complete, shutting down in 60s…".to_string(),
            Notice::ShutdownFailed(e) => concat("shutdown failed: ", e.as_str()),
        }
    }
}

fn enclose(before: &str, text: &str, after: &str) -> (r: String)
    ensures
        r@ == before@ + text@ + after@,
{
    let head = concat(before, text);
    concat(head.as_str(), after)
}

/// The speed button raises the cap until it is lifted, and begins again with the
/// lowest one; a cap that was set otherwise goes on there too.
pub proof fn speed_rises_and_begins_again(current: u32)
    ensures
        current < 256 ==> speed_after(current) == 256,
        current == 256 || current == 512 || current == 1024 ==> speed_after(current) == 2 * current,
        current == 2048 ==> speed_after(current) == 5120,
        current == 5120 ==> speed_after(current) == 10240,
        current == 10240 ==> speed_after(current) == 0,
        !speed_steps().contains(current) ==> speed_after(current) == 256,
        speed_steps().contains(speed_after(current)),
{
    let s = speed_steps();
    assert(s[0] == 0 && s[1] == 256 && s[2] == 512 && s[3] == 1024 && s[4] == 2048 && s[5] == 5120
        && s[6] == 10240);
}

/// The connections button doubles the connections up to 32 and begins again with
/// one; another number goes on as eight does.
pub proof fn connections_double(current: nat)
    ensures
        current == 1 || current == 2 || current == 4 || current == 8 || current == 16
            ==> conns_after(current) == 2 * current,
        current == 32 ==> conns_after(current) == 1,
        current != 1 && current != 2 && current != 4 && current != 16 && current != 32
            ==> conns_after(current) == 16,
{
}

/// A cap applies exactly where it is switched on and is not zero.
pub proof fn cap_applies_where_it_is_on(c: ConfigView)
    ensures
        c.enable_speed_limit ==> applied_cap(c) == c.speed_limit_kbps,
        !c.enable_speed_limit ==> applied_cap(c) == 0,
{
}

} // verus!
