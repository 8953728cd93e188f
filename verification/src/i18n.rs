//! Minimal string tables.
//!
//! English is embedded; other languages come as flat JSON objects
//! (`{"app.title": "..."}`). Missing keys fall back to English, then to the key
//! itself.

use vstd::prelude::*;

use crate::error::{CcdmError, ErrorView};
use crate::json::{self, parse_table};
use crate::paths::{self, extension_of, stem_of};
use crate::text::{self, append, chars_of, replaced, same_text, string_of};

verus! {

/// Language used when nothing else is configured.
pub const DEFAULT_LANG: &'static str = "en";

/// The texts of every language that was loaded, by language and key.
pub type TextsView = Map<(Seq<char>, Seq<char>), Seq<char>>;

/// One text that was loaded.
#[derive(Debug)]
struct Loaded {
    lang: String,
    key: String,
    text: String,
}

/// External overrides, a later one for the same language and key replacing an
/// earlier one.
#[derive(Debug)]
pub struct Overrides {
    list: Vec<Loaded>,
}

spec fn loaded_view(list: Seq<Loaded>) -> TextsView
    decreases list.len(),
{
    if list.len() == 0 {
        Map::empty()
    } else {
        let last = list.last();
        loaded_view(list.drop_last()).insert((last.lang@, last.key@), last.text@)
    }
}

impl View for Overrides {
    type V = TextsView;

    closed spec fn view(&self) -> TextsView {
        loaded_view(self.list@)
    }
}

/// The texts with a table for a language merged over them.
pub open spec fn merged(
    texts: TextsView,
    lang: Seq<char>,
    table: Map<Seq<char>, Seq<char>>,
) -> TextsView {
    Map::new(
        |k: (Seq<char>, Seq<char>)|
            texts.contains_key(k) || (k.0 == lang && table.contains_key(k.1)),
        |k: (Seq<char>, Seq<char>)|
            if k.0 == lang && table.contains_key(k.1) {
                table[k.1]
            } else {
                texts[k]
            },
    )
}

/// A table that was merged is found for its language, and nothing else
/// changes.
pub proof fn merged_table_is_found(
    texts: TextsView,
    lang: Seq<char>,
    table: Map<Seq<char>, Seq<char>>,
    other: Seq<char>,
    key: Seq<char>,
)
    ensures
        table.contains_key(key) ==> merged(texts, lang, table).get((lang, key)) == Some(table[key]),
        !table.contains_key(key) ==> merged(texts, lang, table).get((lang, key)) == texts.get(
            (lang, key),
        ),
        other != lang ==> merged(texts, lang, table).get((other, key)) == texts.get((other, key)),
{
}

impl Overrides {
    /// No overrides.
    pub fn new() -> (r: Self)
        ensures
            r@ == TextsView::empty(),
    {
        Overrides { list: Vec::new() }
    }

    /// Merge a table for a language over what is there.
    pub fn merge(&mut self, lang: &str, table: Vec<(String, String)>)
        ensures
            final(self)@ == merged(old(self)@, lang@, json::table_of(table@)),
    {
        let ghost had = self@;
        let ghost all = table@;
        let mut i: usize = 0;
        assert(all.take(0) =~= Seq::empty());
        assert(self@ =~= merged(had, lang@, json::table_of(all.take(0))));
        while i < table.len()
            invariant
                i <= table@.len(),
                all == table@,
                self@ == merged(had, lang@, json::table_of(all.take(i as int))),
            decreases table.len() - i,
        {
            let (key, text) = &table[i];
            let ghost was = self.list@;
            self.list.push(
                Loaded { lang: lang.to_string(), key: key.clone(), text: text.clone() },
            );
            assert(self.list@.drop_last() =~= was);
            assert(all.take(i + 1).drop_last() =~= all.take(i as int));
            assert(all.take(i + 1).last() == all[i as int]);
            assert(self@ =~= merged(had, lang@, json::table_of(all.take(i + 1))));
            i = i + 1;
        }
        assert(all.take(i as int) =~= all);
    }

    /// The text for a language and a key.
    pub fn override_get(&self, lang: &str, key: &str) -> (r: Option<String>)
        ensures
            text::opt_view(r) == self@.get((lang@, key@)),
    {
        let ghost all = self.list@;
        let mut n: usize = self.list.len();
        assert(all.take(n as int) =~= all);
        while n > 0
            invariant
                n <= self.list@.len(),
                all == self.list@,
                self@.get((lang@, key@)) == loaded_view(all.take(n as int)).get((lang@, key@)),
            decreases n,
        {
            assert(all.take(n as int).drop_last() =~= all.take(n - 1));
            assert(all.take(n as int).last() == all[n - 1]);
            let item = &self.list[n - 1];
            if same_text(item.lang.as_str(), lang) && same_text(item.key.as_str(), key) {
                return Some(item.text.clone());
            }
            n = n - 1;
        }
        None
    }

    /// Merge one language file, given by its text, over what is there.
    pub fn load_file(&mut self, lang: &str, text: &str) -> (r: Result<(), CcdmError>)
        ensures
            (match r {
                Ok(_) => None,
                Err(e) => Some(e@),
            }) == (match json::json_table(text@) {
                Ok(_) => None,
                Err(e) => Some(ErrorView::Other(e)),
            }),
            final(self)@ == (match json::json_table(text@) {
                Ok(table) => merged(old(self)@, lang@, table),
                Err(_) => old(self)@,
            }),
    {
        match parse_table(text) {
            Ok(table) => {
                self.merge(lang, table);
                Ok(())
            },
            Err(e) => Err(CcdmError::Other(e)),
        }
    }
}

/// The language that a file is for: the stem of a `.json` file.
pub fn lang_code(path: &str) -> (r: Option<String>)
    ensures
        text::opt_view(r) == (if paths::extension(path@) == Some("json"@) {
            paths::stem_text(path@)
        } else {
            None
        }),
{
    match extension_of(path) {
        Some(ext) => if same_text(ext.as_str(), "json") {
            stem_of(path)
        } else {
            None
        },
        None => None,
    }
}

/// The texts of the window.
pub open spec fn chrome_text(key: Seq<char>) -> Option<Seq<char>> {
    if key == "app.title"@ {
        Some("ccdwonloadmanager"@)
    } else if key == "app.live"@ {
        Some("{t} — live queue"@)
    } else if key == "app.stats"@ {
        Some("{total} row(s), {active} active, {cats} categories • {cfg}"@)
    } else if key == "app.empty"@ {
        Some("Queue is empty — copy a download link, then hit “Add from clipboard”."@)
    } else if key == "app.hint_settings"@ {
        Some("apply to newly started downloads"@)
    } else if key == "app.hint_auto"@ {
        Some("monitor adds copied links • sched gates starts"@)
    } else if key == "app.clip_hint"@ {
        Some("Copy a download link, then hit “Add from clipboard”."@)
    } else if key == "tb.add"@ {
        Some("Add from clipboard"@)
    } else if key == "tb.speed"@ {
        Some("Speed: {v}"@)
    } else if key == "tb.connections"@ {
        Some("Connections: {n}"@)
    } else if key == "tb.organize"@ {
        Some("Organize: {v}"@)
    } else if key == "tb.monitor"@ {
        Some("Monitor: {v}"@)
    } else if key == "tb.sched"@ {
        Some("Sched: {v}"@)
    } else if key == "tb.sched_off"@ {
        Some("Sched: off"@)
    } else if key == "tb.shutdown"@ {
        Some("Shutdown: {v}"@)
    } else if key == "tb.theme"@ {
        Some("Theme: {v}"@)
    } else if key == "tb.quality"@ {
        Some("Quality: {v}"@)
    } else if key == "tb.unlimited"@ {
        Some("unlimited"@)
    } else if key == "cm.on"@ {
        Some("on"@)
    } else if key == "cm.off"@ {
        Some("off"@)
    } else if key == "cm.dark"@ {
        Some("dark"@)
    } else if key == "cm.light"@ {
        Some("light"@)
    } else {
        None
    }
}

fn chrome(key: &str) -> (r: Option<&'static str>)
    ensures
        text::str_view(r) == chrome_text(key@),
{
    if same_text(key, "app.title") {
        Some("ccdwonloadmanager")
    } else if same_text(key, "app.live") {
        Some("{t} — live queue")
    } else if same_text(key, "app.stats") {
        Some("{total} row(s), {active} active, {cats} categories • {cfg}")
    } else if same_text(key, "app.empty") {
        Some("Queue is empty — copy a download link, then hit “Add from clipboard”.")
    } else if same_text(key, "app.hint_settings") {
        Some("apply to newly started downloads")
    } else if same_text(key, "app.hint_auto") {
        Some("monitor adds copied links • sched gates starts")
    } else if same_text(key, "app.clip_hint") {
        Some("Copy a download link, then hit “Add from clipboard”.")
    } else if same_text(key, "tb.add") {
        Some("Add from clipboard")
    } else if same_text(key, "tb.speed") {
        Some("Speed: {v}")
    } else if same_text(key, "tb.connections") {
        Some("Connections: {n}")
    } else if same_text(key, "tb.organize") {
        Some("Organize: {v}")
    } else if same_text(key, "tb.monitor") {
        Some("Monitor: {v}")
    } else if same_text(key, "tb.sched") {
        Some("Sched: {v}")
    } else if same_text(key, "tb.sched_off") {
        Some("Sched: off")
    } else if same_text(key, "tb.shutdown") {
        Some("Shutdown: {v}")
    } else if same_text(key, "tb.theme") {
        Some("Theme: {v}")
    } else if same_text(key, "tb.quality") {
        Some("Quality: {v}")
    } else if same_text(key, "tb.unlimited") {
        Some("unlimited")
    } else if same_text(key, "cm.on") {
        Some("on")
    } else if same_text(key, "cm.off") {
        Some("off")
    } else if same_text(key, "cm.dark") {
        Some("dark")
    } else if same_text(key, "cm.light") {
        Some("light")
    } else {
        None
    }
}

/// The texts of a row.
pub open spec fn rows_text(key: Seq<char>) -> Option<Seq<char>> {
    if key == "row.start"@ {
        Some("Start"@)
    } else if key == "row.pause"@ {
        Some("Pause"@)
    } else if key == "row.resume"@ {
        Some("Resume"@)
    } else if key == "row.retry"@ {
        Some("Retry"@)
    } else if key == "row.remove"@ {
        Some("Remove"@)
    } else if key == "row.folder"@ {
        Some("Folder"@)
    } else if key == "row.again"@ {
        Some("Again"@)
    } else if key == "row.mp3"@ {
        Some("MP3"@)
    } else if key == "row.done"@ {
        Some("done"@)
    } else if key == "st.queued"@ {
        Some("queued"@)
    } else if key == "st.downloading"@ {
        Some("downloading"@)
    } else if key == "st.paused"@ {
        Some("paused"@)
    } else if key == "st.finished"@ {
        Some("finished"@)
    } else if key == "st.failed"@ {
        Some("failed"@)
    } else {
        None
    }
}

fn rows(key: &str) -> (r: Option<&'static str>)
    ensures
        text::str_view(r) == rows_text(key@),
{
    if same_text(key, "row.start") {
        Some("Start")
    } else if same_text(key, "row.pause") {
        Some("Pause")
    } else if same_text(key, "row.resume") {
        Some("Resume")
    } else if same_text(key, "row.retry") {
        Some("Retry")
    } else if same_text(key, "row.remove") {
        Some("Remove")
    } else if same_text(key, "row.folder") {
        Some("Folder")
    } else if same_text(key, "row.again") {
        Some("Again")
    } else if same_text(key, "row.mp3") {
        Some("MP3")
    } else if same_text(key, "row.done") {
        Some("done")
    } else if same_text(key, "st.queued") {
        Some("queued")
    } else if same_text(key, "st.downloading") {
        Some("downloading")
    } else if same_text(key, "st.paused") {
        Some("paused")
    } else if same_text(key, "st.finished") {
        Some("finished")
    } else if same_text(key, "st.failed") {
        Some("failed")
    } else {
        None
    }
}

/// The texts of notices.
pub open spec fn notices_text(key: Seq<char>) -> Option<Seq<char>> {
    if key == "n.added"@ {
        Some("added {file} — hit Start"@)
    } else if key == "n.probing"@ {
        Some("probing {url} …"@)
    } else if key == "n.pausing"@ {
        Some("pausing {name} …"@)
    } else if key == "n.browser"@ {
        Some("browser added {file}"@)
    } else if key == "n.no_text"@ {
        Some("clipboard has no text — copy a link first"@)
    } else if key == "n.dup"@ {
        Some("that URL is already in the list"@)
    } else if key == "n.busy"@ {
        Some("pause it before removing"@)
    } else if key == "n.save_q"@ {
        Some("queue save failed: {e}"@)
    } else if key == "n.save_c"@ {
        Some("config save failed: {e}"@)
    } else if key == "n.no_cfgdir"@ {
        Some("no config dir on this platform"@)
    } else if key == "n.probe_fail"@ {
        Some("probe failed: {e}"@)
    } else if key == "n.rt_err"@ {
        Some("runtime error: {e}"@)
    } else if key == "n.notfound"@ {
        Some("row not found"@)
    } else if key == "n.reveal"@ {
        Some("cannot open folder: {e}"@)
    } else if key == "n.converting"@ {
        Some("converting {file}…"@)
    } else if key == "n.converted"@ {
        Some("converted → {out}"@)
    } else if key == "n.convert_fail"@ {
        Some("convert failed: {e}"@)
    } else if key == "n.no_ffmpeg"@ {
        Some("ffmpeg not found on PATH"@)
    } else if key == "n.update"@ {
        Some("update available: {tag} ({url})"@)
    } else if key == "n.outside"@ {
        Some("outside scheduled window ({w}); toggle Sched to run now"@)
    } else if key == "n.shutting"@ {
        Some("queue complete, shutting down in 60s…"@)
    } else if key == "n.shut_fail"@ {
        Some("shutdown failed: {e}"@)
    } else if key == "n.video_only"@ {
        Some("{file} is video-only (CLI `video` merges audio)"@)
    } else {
        None
    }
}

fn notices(key: &str) -> (r: Option<&'static str>)
    ensures
        text::str_view(r) == notices_text(key@),
{
    if same_text(key, "n.added") {
        Some("added {file} — hit Start")
    } else if same_text(key, "n.probing") {
        Some("probing {url} …")
    } else if same_text(key, "n.pausing") {
        Some("pausing {name} …")
    } else if same_text(key, "n.browser") {
        Some("browser added {file}")
    } else if same_text(key, "n.no_text") {
        Some("clipboard has no text — copy a link first")
    } else if same_text(key, "n.dup") {
        Some("that URL is already in the list")
    } else if same_text(key, "n.busy") {
        Some("pause it before removing")
    } else if same_text(key, "n.save_q") {
        Some("queue save failed: {e}")
    } else if same_text(key, "n.save_c") {
        Some("config save failed: {e}")
    } else if same_text(key, "n.no_cfgdir") {
        Some("no config dir on this platform")
    } else if same_text(key, "n.probe_fail") {
        Some("probe failed: {e}")
    } else if same_text(key, "n.rt_err") {
        Some("runtime error: {e}")
    } else if same_text(key, "n.notfound") {
        Some("row not found")
    } else if same_text(key, "n.reveal") {
        Some("cannot open folder: {e}")
    } else if same_text(key, "n.converting") {
        Some("converting {file}…")
    } else if same_text(key, "n.converted") {
        Some("converted → {out}")
    } else if same_text(key, "n.convert_fail") {
        Some("convert failed: {e}")
    } else if same_text(key, "n.no_ffmpeg") {
        Some("ffmpeg not found on PATH")
    } else if same_text(key, "n.update") {
        Some("update available: {tag} ({url})")
    } else if same_text(key, "n.outside") {
        Some("outside scheduled window ({w}); toggle Sched to run now")
    } else if same_text(key, "n.shutting") {
        Some("queue complete, shutting down in 60s…")
    } else if same_text(key, "n.shut_fail") {
        Some("shutdown failed: {e}")
    } else if same_text(key, "n.video_only") {
        Some("{file} is video-only (CLI `video` merges audio)")
    } else {
        None
    }
}

/// The texts of the command line.
pub open spec fn commands_text(key: Seq<char>) -> Option<Seq<char>> {
    if key == "c.probe_url"@ {
        Some("final url : {v}"@)
    } else if key == "c.probe_name"@ {
        Some("file name : {v}"@)
    } else if key == "c.probe_size"@ {
        Some("size      : {v}"@)
    } else if key == "c.probe_unknown"@ {
        Some("unknown"@)
    } else if key == "c.probe_ranges"@ {
        Some("ranges    : {v}"@)
    } else if key == "c.probe_mime"@ {
        Some("mime      : {v}"@)
    } else if key == "c.probe_media"@ {
        Some("media     : {v}"@)
    } else if key == "c.downloading"@ {
        Some("downloading {url} -> {dest} ({n} segments)"@)
    } else if key == "c.done"@ {
        Some("done: {dest} ({n} bytes)"@)
    } else if key == "c.added"@ {
        Some("added {id}  {file}  {url}"@)
    } else if key == "c.empty"@ {
        Some("queue is empty"@)
    } else if key == "c.stored"@ {
        Some("stored in {p}"@)
    } else if key == "c.none"@ {
        Some("nothing queued"@)
    } else if key == "c.starting"@ {
        Some("starting {id} -> {dest} ({n} segments)"@)
    } else if key == "c.retry"@ {
        Some("attempt {n} failed ({e}); retrying in {w}s..."@)
    } else if key == "c.row_done"@ {
        Some("done: {dest}"@)
    } else if key == "c.row_fail"@ {
        Some("failed {dest}: {e}"@)
    } else if key == "c.summary"@ {
        Some("finished: {ok} ok, {failed} failed"@)
    } else if key == "c.unknown"@ {
        Some("unknown id: {id}"@)
    } else if key == "c.outside"@ {
        Some("outside scheduled window ({w}); rerun with --force or --wait"@)
    } else if key == "c.waiting"@ {
        Some("waiting for scheduled window ({w})…"@)
    } else if key == "c.shutting"@ {
        Some("queue complete, shutting down in 60s…"@)
    } else if key == "c.shut_fail"@ {
        Some("shutdown failed: {e}"@)
    } else if key == "c.converting"@ {
        Some("converting {src} -> {fmt}…"@)
    } else if key == "c.converted"@ {
        Some("converted: {out}"@)
    } else if key == "c.upd_none"@ {
        Some("set update_repo in config.json to enable update checks"@)
    } else if key == "c.upd_cur"@ {
        Some("up to date ({v})"@)
    } else if key == "c.upd_new"@ {
        Some("update available: {tag} — {url}"@)
    } else if key == "c.lang_cur"@ {
        Some("language: {l}"@)
    } else if key == "c.lang_set"@ {
        Some("language set to {l} (add lang/{l}.json for translations)"@)
    } else if key == "c.yt_noytdlp"@ {
        Some("yt-dlp not found — install it (https://github.com/yt-dlp/yt-dlp) or set ytdlp_path in config.json"@)
    } else if key == "c.yt_nostreams"@ {
        Some("yt-dlp returned no downloadable streams"@)
    } else if key == "c.yt_resolving"@ {
        Some("resolving {url}…"@)
    } else if key == "c.yt_found"@ {
        Some("found: {title}"@)
    } else if key == "c.yt_muxing"@ {
        Some("muxing video + audio…"@)
    } else {
        None
    }
}

fn commands(key: &str) -> (r: Option<&'static str>)
    ensures
        text::str_view(r) == commands_text(key@),
{
    if same_text(key, "c.probe_url") {
        Some("final url : {v}")
    } else if same_text(key, "c.probe_name") {
        Some("file name : {v}")
    } else if same_text(key, "c.probe_size") {
        Some("size      : {v}")
    } else if same_text(key, "c.probe_unknown") {
        Some("unknown")
    } else if same_text(key, "c.probe_ranges") {
        Some("ranges    : {v}")
    } else if same_text(key, "c.probe_mime") {
        Some("mime      : {v}")
    } else if same_text(key, "c.probe_media") {
        Some("media     : {v}")
    } else if same_text(key, "c.downloading") {
        Some("downloading {url} -> {dest} ({n} segments)")
    } else if same_text(key, "c.done") {
        Some("done: {dest} ({n} bytes)")
    } else if same_text(key, "c.added") {
        Some("added {id}  {file}  {url}")
    } else if same_text(key, "c.empty") {
        Some("queue is empty")
    } else if same_text(key, "c.stored") {
        Some("stored in {p}")
    } else if same_text(key, "c.none") {
        Some("nothing queued")
    } else if same_text(key, "c.starting") {
        Some("starting {id} -> {dest} ({n} segments)")
    } else if same_text(key, "c.retry") {
        Some("attempt {n} failed ({e}); retrying in {w}s...")
    } else if same_text(key, "c.row_done") {
        Some("done: {dest}")
    } else if same_text(key, "c.row_fail") {
        Some("failed {dest}: {e}")
    } else if same_text(key, "c.summary") {
        Some("finished: {ok} ok, {failed} failed")
    } else if same_text(key, "c.unknown") {
        Some("unknown id: {id}")
    } else if same_text(key, "c.outside") {
        Some("outside scheduled window ({w}); rerun with --force or --wait")
    } else if same_text(key, "c.waiting") {
        Some("waiting for scheduled window ({w})…")
    } else if same_text(key, "c.shutting") {
        Some("queue complete, shutting down in 60s…")
    } else if same_text(key, "c.shut_fail") {
        Some("shutdown failed: {e}")
    } else if same_text(key, "c.converting") {
        Some("converting {src} -> {fmt}…")
    } else if same_text(key, "c.converted") {
        Some("converted: {out}")
    } else if same_text(key, "c.upd_none") {
        Some("set update_repo in config.json to enable update checks")
    } else if same_text(key, "c.upd_cur") {
        Some("up to date ({v})")
    } else if same_text(key, "c.upd_new") {
        Some("update available: {tag} — {url}")
    } else if same_text(key, "c.lang_cur") {
        Some("language: {l}")
    } else if same_text(key, "c.lang_set") {
        Some("language set to {l} (add lang/{l}.json for translations)")
    } else if same_text(key, "c.yt_noytdlp") {
        Some("yt-dlp not found — install it (https://github.com/yt-dlp/yt-dlp) or set ytdlp_path in config.json")
    } else if same_text(key, "c.yt_nostreams") {
        Some("yt-dlp returned no downloadable streams")
    } else if same_text(key, "c.yt_resolving") {
        Some("resolving {url}…")
    } else if same_text(key, "c.yt_found") {
        Some("found: {title}")
    } else if same_text(key, "c.yt_muxing") {
        Some("muxing video + audio…")
    } else {
        None
    }
}

/// The embedded English text of a key.
pub open spec fn english(key: Seq<char>) -> Option<Seq<char>> {
    match (chrome_text(key), rows_text(key), notices_text(key)) {
        (Some(t), _, _) => Some(t),
        (None, Some(t), _) => Some(t),
        (None, None, Some(t)) => Some(t),
        (None, None, None) => commands_text(key),
    }
}

/// Embedded English table.
pub fn en(key: &str) -> (r: Option<&'static str>)
    ensures
        text::str_view(r) == english(key@),
{
    if let Some(t) = chrome(key) {
        return Some(t);
    }
    if let Some(t) = rows(key) {
        return Some(t);
    }
    if let Some(t) = notices(key) {
        return Some(t);
    }
    commands(key)
}

/// What a key is shown as: the text of the language, else the English one,
/// else the key itself. English is never overridden.
pub open spec fn translated(texts: TextsView, lang: Seq<char>, key: Seq<char>) -> Seq<char> {
    if lang != DEFAULT_LANG@ && texts.contains_key((lang, key)) {
        texts[(lang, key)]
    } else {
        match english(key) {
            Some(t) => t,
            None => key,
        }
    }
}

/// Translate `key` (English fallback, then the key itself).
pub fn t(overrides: &Overrides, lang: &str, key: &str) -> (r: String)
    ensures
        r@ == translated(overrides@, lang@, key@),
{
    if !same_text(lang, DEFAULT_LANG) {
        if let Some(text) = overrides.override_get(lang, key) {
            return text;
        }
    }
    match en(key) {
        Some(text) => text.to_string(),
        None => key.to_string(),
    }
}

/// `text` with each `{name}` replaced by its value, one name after the other.
pub open spec fn filled(text: Seq<char>, args: Seq<(&str, &str)>) -> Seq<char>
    decreases args.len(),
{
    if args.len() == 0 {
        text
    } else {
        text::replace(
            filled(text, args.drop_last()),
            "{"@ + args.last().0@ + "}"@,
            args.last().1@,
        )
    }
}

/// Translate a `{placeholder}` template.
pub fn format(overrides: &Overrides, lang: &str, key: &str, args: &[(&str, &str)]) -> (r: String)
    ensures
        r@ == filled(translated(overrides@, lang@, key@), args@),
{
    let ghost start = translated(overrides@, lang@, key@);
    let mut text = chars_of(t(overrides, lang, key).as_str());
    let mut i: usize = 0;
    assert(args@.take(0) =~= Seq::empty());
    while i < args.len()
        invariant
            i <= args@.len(),
            text@ == filled(start, args@.take(i as int)),
        decreases args.len() - i,
    {
        let (name, value) = args[i];
        let mut mark = chars_of("{");
        append(&mut mark, chars_of(name).as_slice());
        append(&mut mark, chars_of("}").as_slice());
        proof {
            reveal_strlit("{");
            assert(args@.take(i + 1).drop_last() =~= args@.take(i as int));
            assert(args@.take(i + 1).last() == args@[i as int]);
        }
        let pattern = string_of(mark.as_slice());
        text = replaced(text.as_slice(), pattern.as_str(), chars_of(value).as_slice());
        i = i + 1;
    }
    assert(args@.take(i as int) =~= args@);
    string_of(text.as_slice())
}

/// A key that a language lacks is shown as in English, and an unknown key as
/// itself.
pub proof fn missing_texts_fall_back(texts: TextsView, lang: Seq<char>, key: Seq<char>)
    requires
        !texts.contains_key((lang, key)),
    ensures
        translated(texts, lang, key) == translated(texts, DEFAULT_LANG@, key),
        english(key) is None ==> translated(texts, lang, key) == key,
{
}

/// A text that a language other than English has is shown, whole; English is
/// never overridden.
pub proof fn loaded_texts_are_shown(texts: TextsView, lang: Seq<char>, key: Seq<char>)
    ensures
        lang != "en"@ && texts.contains_key((lang, key)) ==> translated(texts, lang, key)
            == texts[(lang, key)],
        translated(texts, "en"@, key) == (match english(key) {
            Some(t) => t,
            None => key,
        }),
{
}

/// A placeholder is replaced by its value where it stands, and the rest of the
/// text is kept; without a value for it, the text is kept as it is.
pub proof fn placeholders_are_filled_in(a: Seq<char>, b: Seq<char>, name: &str, value: &str)
    requires
        text::free_of(a, text::CharClass::One('{')),
        text::free_of(b, text::CharClass::One('{')),
    ensures
        filled(a + ("{"@ + name@ + "}"@) + b, seq![(name, value)]) == a + value@ + b,
        filled(a, seq![(name, value)]) == a,
        filled(a, Seq::empty()) == a,
{
    reveal_strlit("{");
    reveal_strlit("}");
    let pat = "{"@ + name@ + "}"@;
    let s = a + pat + b;
    let args = seq![(name, value)];
    assert(pat[0] == '{');
    assert(args.drop_last() =~= Seq::empty());
    assert(filled(s, args.drop_last()) == s);
    assert(filled(a, args.drop_last()) == a);
    assert forall|j: int| 0 <= j < a.len() implies !#[trigger] text::stands_at(s, pat, j) by {
        if text::stands_at(s, pat, j) {
            assert(s[j + 0] == pat[0]);
            assert(s[j] == a[j]);
            assert(!text::CharClass::One('{').has(a[j]));
        }
    }
    text::first_place_is_replaced(a, pat, b, value@);
    lemma_no_brace(b, pat);
    text::nothing_else_is_replaced(b, pat, value@);
    lemma_no_brace(a, pat);
    text::nothing_else_is_replaced(a, pat, value@);
}

proof fn lemma_no_brace(s: Seq<char>, pat: Seq<char>)
    requires
        text::free_of(s, text::CharClass::One('{')),
        pat.len() > 0,
        pat[0] == '{',
    ensures
        forall|j: int| !#[trigger] text::stands_at(s, pat, j),
{
    assert forall|j: int| !#[trigger] text::stands_at(s, pat, j) by {
        if text::stands_at(s, pat, j) {
            assert(s[j + 0] == pat[0]);
            assert(!text::CharClass::One('{').has(s[j]));
        }
    }
}

/// A language file is for the language that it is called after, and only a
/// `.json` file is one.
pub proof fn language_is_the_name_of_the_file(
    path: &str,
    dir: Seq<char>,
    code: Seq<char>,
    ext: Seq<char>,
    r: Option<String>,
)
    requires
        call_ensures(lang_code, (path,), r),
        path@ == dir + code + seq!['.'] + ext,
        dir.len() > 0 ==> dir[dir.len() - 1] == '/',
        code.len() > 0,
        forall|i: int| 0 <= i < code.len() ==> #[trigger] code[i] != '/',
        ext.len() > 0,
        forall|i: int| 0 <= i < ext.len() ==> #[trigger] ext[i] != '/' && ext[i] != '.',
    ensures
        ext == "json"@ ==> r is Some && r->0@ == code,
        ext != "json"@ ==> r is None,
{
    paths::extension_and_stem_are_the_name(dir, code, ext);
}

} // verus!
