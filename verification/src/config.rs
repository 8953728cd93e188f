//! App configuration.

use vstd::prelude::*;

use crate::paths::{self, join_path};
use crate::text::{self, chars_of, string_of, trimmed};

verus! {

/// Global settings for the download manager.
#[derive(Debug, Clone)]
pub struct AppConfig {
    /// Where finished files go.
    pub download_dir: String,
    /// Max connections (segments) per download.
    pub max_connections: usize,
    /// Max downloads running at the same time.
    pub max_concurrent_downloads: usize,
    /// Global speed cap in KiB/s (0 = unlimited).
    pub speed_limit_kbps: u32,
    /// Whether the speed cap applies.
    pub enable_speed_limit: bool,
    /// HTTP(S) proxy URL, e.g. `http://127.0.0.1:8080`.
    /// `None` (default) means direct connection.
    pub proxy_url: Option<String>,
    /// Sort finished files into `<dir>/<Category>/` subfolders by extension.
    /// Off by default.
    pub organize_by_category: bool,
}

/// The contents of an [`AppConfig`].
#[verifier::ext_equal]
pub struct ConfigView {
    pub download_dir: Seq<char>,
    pub max_connections: nat,
    pub max_concurrent_downloads: nat,
    pub speed_limit_kbps: nat,
    pub enable_speed_limit: bool,
    pub proxy_url: Option<Seq<char>>,
    pub organize_by_category: bool,
}

impl View for AppConfig {
    type V = ConfigView;

    open spec fn view(&self) -> ConfigView {
        ConfigView {
            download_dir: self.download_dir@,
            max_connections: self.max_connections as nat,
            max_concurrent_downloads: self.max_concurrent_downloads as nat,
            speed_limit_kbps: self.speed_limit_kbps as nat,
            enable_speed_limit: self.enable_speed_limit,
            proxy_url: text::opt_view(self.proxy_url),
            organize_by_category: self.organize_by_category,
        }
    }
}

/// Most connections per download.
pub const MAX_CONNECTIONS: usize = 32;

/// Most downloads at the same time.
pub const MAX_CONCURRENT: usize = 10;

/// `n` between 1 and `max`.
pub open spec fn bounded(n: nat, max: nat) -> nat {
    if n < 1 {
        1
    } else if n > max {
        max
    } else {
        n
    }
}

/// `n` between 1 and `max`.
pub fn clamp_to(n: usize, max: usize) -> (r: usize)
    ensures
        r == bounded(n as nat, max as nat),
{
    if n < 1 {
        1
    } else if n > max {
        max
    } else {
        n
    }
}

impl ConfigView {
    /// The settings of a new installation.
    pub open spec fn defaults(download_dir: Seq<char>) -> ConfigView {
        ConfigView {
            download_dir,
            max_connections: 8,
            max_concurrent_downloads: 3,
            speed_limit_kbps: 0,
            enable_speed_limit: false,
            proxy_url: None,
            organize_by_category: false,
        }
    }

    /// The settings within sane bounds, without a blank proxy.
    pub open spec fn normal(self) -> ConfigView {
        ConfigView {
            max_connections: bounded(self.max_connections, MAX_CONNECTIONS as nat),
            max_concurrent_downloads: bounded(self.max_concurrent_downloads, MAX_CONCURRENT as nat),
            proxy_url: usable_proxy(self.proxy_url),
            ..self
        }
    }
}

/// A proxy that is not blank, as it is written.
pub open spec fn usable_proxy(proxy: Option<Seq<char>>) -> Option<Seq<char>> {
    match proxy {
        Some(p) => if text::trim(p).len() == 0 {
            None
        } else {
            Some(p)
        },
        None => None,
    }
}

/// Normalizing keeps to the bounds, changes nothing else, and a second time
/// changes nothing at all.
pub proof fn normalizing_settles(c: ConfigView)
    ensures
        1 <= c.normal().max_connections <= MAX_CONNECTIONS,
        1 <= c.normal().max_concurrent_downloads <= MAX_CONCURRENT,
        c.normal().normal() == c.normal(),
        c.normal().download_dir == c.download_dir,
        c.normal().speed_limit_kbps == c.speed_limit_kbps,
        c.normal().enable_speed_limit == c.enable_speed_limit,
        c.normal().organize_by_category == c.organize_by_category,
{
}

/// Where the config file is kept below a config directory.
pub open spec fn config_file(config_dir: Seq<char>) -> Seq<char> {
    paths::joined_path(paths::joined_path(config_dir, "ccdm"@), "config.json"@)
}

impl AppConfig {
    /// The settings of a new installation with its files in `download_dir`.
    pub fn with_download_dir(download_dir: String) -> (r: Self)
        ensures
            r@ == ConfigView::defaults(download_dir@),
    {
        AppConfig {
            download_dir,
            max_connections: 8,
            max_concurrent_downloads: 3,
            speed_limit_kbps: 0,
            enable_speed_limit: false,
            proxy_url: None,
            organize_by_category: false,
        }
    }

    /// The directory for finished files: that of the user's downloads, else the
    /// current one, else `.`.
    pub fn pick_download_dir(downloads: Option<String>, current: Option<String>) -> (r: String)
        ensures
            r@ == (match (text::opt_view(downloads), text::opt_view(current)) {
                (Some(d), _) => d,
                (None, Some(c)) => c,
                (None, None) => "."@,
            }),
    {
        match downloads {
            Some(d) => d,
            None => match current {
                Some(c) => c,
                None => ".".to_string(),
            },
        }
    }

    /// Clamp to sane bounds (at least 1 connection, ...) and drop an
    /// empty proxy string back to `None`.
    pub fn normalized(self) -> (r: Self)
        ensures
            r@ == self@.normal(),
    {
        let blank = match &self.proxy_url {
            Some(p) => trimmed(chars_of(p.as_str()).as_slice()).len() == 0,
            None => false,
        };
        AppConfig {
            download_dir: self.download_dir,
            max_connections: clamp_to(self.max_connections, MAX_CONNECTIONS),
            max_concurrent_downloads: clamp_to(self.max_concurrent_downloads, MAX_CONCURRENT),
            speed_limit_kbps: self.speed_limit_kbps,
            enable_speed_limit: self.enable_speed_limit,
            proxy_url: if blank {
                None
            } else {
                self.proxy_url
            },
            organize_by_category: self.organize_by_category,
        }
    }

    /// The settings read from the config file, or the defaults where there is
    /// no file, normalized.
    pub fn load(read: Option<AppConfig>, download_dir: String) -> (r: Self)
        ensures
            r@ == (match read {
                Some(c) => c@.normal(),
                None => ConfigView::defaults(download_dir@).normal(),
            }),
    {
        match read {
            Some(c) => c.normalized(),
            None => AppConfig::with_download_dir(download_dir).normalized(),
        }
    }

    /// Config file path below the config dir, if one is known.
    pub fn config_path(config_dir: Option<&str>) -> (r: Option<String>)
        ensures
            text::opt_view(r) == (match text::str_view(config_dir) {
                Some(dir) => Some(config_file(dir)),
                None => None,
            }),
    {
        match config_dir {
            Some(dir) => {
                let below = join_path(dir, "ccdm");
                Some(join_path(below.as_str(), "config.json"))
            },
            None => None,
        }
    }

    /// The proxy that requests go through, if one is set.
    pub fn proxy(&self) -> (r: Option<String>)
        ensures
            text::opt_view(r) == (match usable_proxy(self@.proxy_url) {
                Some(p) => Some(text::trim(p)),
                None => None,
            }),
    {
        match &self.proxy_url {
            None => None,
            Some(p) => {
                let all = chars_of(p.as_str());
                let kept = trimmed(all.as_slice());
                if kept.len() == 0 {
                    None
                } else {
                    Some(string_of(kept))
                }
            },
        }
    }

    /// Connections for one download: those asked for, else those of the
    /// settings, within bounds.
    pub fn connections(&self, asked: Option<usize>) -> (r: usize)
        ensures
            r == bounded(
                (match asked {
                    Some(n) => n as nat,
                    None => self@.max_connections,
                }),
                MAX_CONNECTIONS as nat,
            ),
    {
        match asked {
            Some(n) => clamp_to(n, MAX_CONNECTIONS),
            None => clamp_to(self.max_connections, MAX_CONNECTIONS),
        }
    }
}

/// A setting within its bounds is kept, one below is raised to one, and one above
/// is lowered to the bound; a proxy is kept as it is written unless it is blank.
pub proof fn normalizing_keeps_what_is_sane(c: ConfigView)
    ensures
        1 <= c.max_connections <= 32 ==> c.normal().max_connections == c.max_connections,
        c.max_connections == 0 ==> c.normal().max_connections == 1,
        c.max_connections > 32 ==> c.normal().max_connections == 32,
        1 <= c.max_concurrent_downloads <= 10 ==> c.normal().max_concurrent_downloads
            == c.max_concurrent_downloads,
        c.max_concurrent_downloads == 0 ==> c.normal().max_concurrent_downloads == 1,
        c.max_concurrent_downloads > 10 ==> c.normal().max_concurrent_downloads == 10,
        c.proxy_url is None ==> c.normal().proxy_url is None,
        c.proxy_url matches Some(p) ==> (text::blank(p) <==> c.normal().proxy_url is None),
        c.proxy_url matches Some(p) ==> !text::blank(p) ==> c.normal().proxy_url == Some(p),
{
    if let Some(p) = c.proxy_url {
        text::blank_is_trimmed_away(p);
    }
}

/// The settings of a new installation are within the bounds as they are, without
/// a speed cap and without a proxy.
pub proof fn defaults_are_sane(download_dir: Seq<char>)
    ensures
        ConfigView::defaults(download_dir).normal() == ConfigView::defaults(download_dir),
        ConfigView::defaults(download_dir).download_dir == download_dir,
        ConfigView::defaults(download_dir).proxy_url is None,
        !ConfigView::defaults(download_dir).enable_speed_limit,
        !ConfigView::defaults(download_dir).organize_by_category,
{
}

/// The config file lies in the program's own folder below the config directory.
pub proof fn config_file_is_below_the_config_dir(config_dir: Seq<char>)
    requires
        config_dir.len() > 0,
        config_dir[config_dir.len() - 1] != '/',
    ensures
        config_file(config_dir) == config_dir + "/ccdm/config.json"@,
{
    reveal_strlit("ccdm");
    reveal_strlit("config.json");
    reveal_strlit("/ccdm/config.json");
    let below = paths::joined_path(config_dir, "ccdm"@);
    assert(below =~= config_dir.push('/') + "ccdm"@);
    assert(below.last() == 'm');
    assert(below.push('/') + "config.json"@ =~= config_dir + "/ccdm/config.json"@);
}

/// A download gets the connections that are asked for, and without any those of
/// the settings, but never none nor more than 32.
pub proof fn connections_are_those_asked_for(c: &AppConfig, asked: Option<usize>, r: usize)
    requires
        call_ensures(AppConfig::connections, (c, asked), r),
    ensures
        1 <= r <= 32,
        asked matches Some(n) ==> 1 <= n <= 32 ==> r == n,
        asked is None && 1 <= c.max_connections <= 32 ==> r == c.max_connections,
{
}

/// The proxy that is used is the one that is set, without the white space around
/// it; a blank one is none.
pub proof fn proxy_is_trimmed(c: &AppConfig, r: Option<String>)
    requires
        call_ensures(AppConfig::proxy, (c,), r),
    ensures
        match c.proxy_url {
            Some(p) => if text::blank(p@) {
                r is None
            } else {
                r is Some && r->0@ == text::trim(p@)
            },
            None => r is None,
        },
{
    if let Some(p) = c.proxy_url {
        text::blank_is_trimmed_away(p@);
    }
}

/// Settings that were read are kept but for their bounds; without any, those of a
/// new installation are taken, with the directory that was found.
pub proof fn read_settings_are_kept(read: Option<AppConfig>, download_dir: String, r: AppConfig)
    requires
        call_ensures(AppConfig::load, (read, download_dir), r),
    ensures
        1 <= r.max_connections <= 32,
        1 <= r.max_concurrent_downloads <= 10,
        match read {
            Some(c) => {
                &&& r.download_dir@ == c.download_dir@
                &&& r.speed_limit_kbps == c.speed_limit_kbps
                &&& r.enable_speed_limit == c.enable_speed_limit
                &&& r.organize_by_category == c.organize_by_category
                &&& 1 <= c.max_connections <= 32 ==> r.max_connections == c.max_connections
                &&& 1 <= c.max_concurrent_downloads <= 10 ==> r.max_concurrent_downloads
                    == c.max_concurrent_downloads
            },
            None => r.download_dir@ == download_dir@ && !r.enable_speed_limit && r.proxy_url is None
                && r.max_connections == 8 && r.max_concurrent_downloads == 3,
        },
{
    match read {
        Some(c) => {
            assert(r@ == c@.normal());
            normalizing_settles(c@);
            normalizing_keeps_what_is_sane(c@);
        },
        None => {
            assert(r@ == ConfigView::defaults(download_dir@).normal());
            defaults_are_sane(download_dir@);
            assert(text::opt_view(r.proxy_url) is None);
        },
    }
    assert(r@.max_connections == r.max_connections);
}

} // verus!
