# ccdm

A download manager whose logic is verified with Verus.

- `src/` — the library: segment planning and resuming, the download queue and
  its stored form, HLS playlists and DASH manifests, naming and sanitizing,
  speed limiting, scheduling, the browser host protocol, yt-dlp and ffmpeg
  decisions, language tables, and the rows of the download list. Functions have
  contracts; the public proof functions state what holds of several of them
  together. Of the cancel flag, which lives between threads, the contracts say
  what it is made with and set to and that results are its readings, not what a
  reading finds.
- `tests/` — what the library gives on concrete inputs, with the real crates
  linked.
- `app/` — ordinary Rust around it: requests, files, programs. `main.rs` is the
  command line and the browser host; `window.rs` is the root of the desktop
  window, which is built with gpui 0.2.

Paths are texts with `/` between their parts. Durations and shown percentages
are floating point and are computed in `app/`.
