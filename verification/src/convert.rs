//! Media conversion via ffmpeg: which binary runs, with which arguments, and
//! what its exit means.

use vstd::prelude::*;

use crate::error::{self, CcdmError, ErrorView};
use crate::names::{self, lower_ext};
use crate::paths::{self, join_path, with_extension};
use crate::text::{self, append, ascii_lowered, chars_of, same, same_text, string_of, tail_of};

verus! {

/// Conversion target.
#[derive(Debug, Clone, Copy, PartialEq, Eq, Structural)]
pub enum ConvertTarget {
    Mp3,
    Mp4,
}

impl ConvertTarget {
    /// File extension of the output.
    pub open spec fn ext(self) -> Seq<char> {
        match self {
            ConvertTarget::Mp3 => "mp3"@,
            ConvertTarget::Mp4 => "mp4"@,
        }
    }

    /// File extension of the output.
    pub fn extension(self) -> (r: &'static str)
        ensures
            r@ == self.ext(),
    {
        match self {
            ConvertTarget::Mp3 => "mp3",
            ConvertTarget::Mp4 => "mp4",
        }
    }

    /// Parse `mp3` / `mp4` (case-insensitive; no character beyond ASCII has a
    /// case that is one of these letters).
    pub fn parse(s: &str) -> (r: Option<Self>)
        ensures
            r == Some(ConvertTarget::Mp3) <==> text::ascii_lower(s@) == "mp3"@,
            r == Some(ConvertTarget::Mp4) <==> text::ascii_lower(s@) == "mp4"@,
    {
        proof {
            reveal_strlit("mp3");
            reveal_strlit("mp4");
            assert("mp3"@[2] != "mp4"@[2]);
        }
        let low = ascii_lowered(chars_of(s).as_slice());
        if same(low.as_slice(), "mp3") {
            Some(ConvertTarget::Mp3)
        } else if same(low.as_slice(), "mp4") {
            Some(ConvertTarget::Mp4)
        } else {
            None
        }
    }
}

/// A target reads back from the extension of its output.
pub proof fn target_reads_back(t: ConvertTarget)
    ensures
        text::ascii_lower(t.ext()) == t.ext(),
        ConvertTarget::Mp3.ext() != ConvertTarget::Mp4.ext(),
{
    reveal_strlit("mp3");
    reveal_strlit("mp4");
    assert(text::ascii_lower(t.ext()) =~= t.ext());
    assert("mp3"@[2] != "mp4"@[2]);
}

/// Where helpers are installed below a config directory.
pub open spec fn tools_below(config_dir: Seq<char>) -> Seq<char> {
    paths::joined_path(paths::joined_path(config_dir, "ccdm"@), "bin"@)
}

/// `<config>/ccdm/bin`: home for auto-installed helpers.
pub fn tools_dir(config_dir: Option<&str>) -> (r: Option<String>)
    ensures
        text::opt_view(r) == (match text::str_view(config_dir) {
            Some(dir) => Some(tools_below(dir)),
            None => None,
        }),
{
    match config_dir {
        Some(dir) => {
            let below = join_path(dir, "ccdm");
            Some(join_path(below.as_str(), "bin"))
        },
        None => None,
    }
}

/// The path of an installed ffmpeg, where helpers have a home.
pub fn ffmpeg_candidate(tools: Option<&str>, windows: bool) -> (r: Option<String>)
    ensures
        text::opt_view(r) == (match text::str_view(tools) {
            Some(dir) => Some(
                paths::joined_path(
                    dir,
                    if windows {
                        "ffmpeg.exe"@
                    } else {
                        "ffmpeg"@
                    },
                ),
            ),
            None => None,
        }),
{
    match tools {
        Some(dir) => if windows {
            Some(join_path(dir, "ffmpeg.exe"))
        } else {
            Some(join_path(dir, "ffmpeg"))
        },
        None => None,
    }
}

/// The ffmpeg that runs: the installed one, else the first of the names on the
/// PATH that answers.
pub open spec fn ffmpeg_choice(
    installed: Option<Seq<char>>,
    plain_runs: bool,
    exe_runs: bool,
) -> Option<Seq<char>> {
    match installed {
        Some(path) => Some(path),
        None => if plain_runs {
            Some("ffmpeg"@)
        } else if exe_runs {
            Some("ffmpeg.exe"@)
        } else {
            None
        },
    }
}

/// ffmpeg binary: tools dir first (auto-setup), then PATH. `installed` is the
/// candidate of the tools dir where it is a file; `plain_runs` and `exe_runs`
/// say whether `ffmpeg` and `ffmpeg.exe` answer.
pub fn ffmpeg_binary(installed: Option<String>, plain_runs: bool, exe_runs: bool) -> (r: Option<
    String,
>)
    ensures
        text::opt_view(r) == ffmpeg_choice(text::opt_view(installed), plain_runs, exe_runs),
{
    match installed {
        Some(path) => Some(path),
        None => if plain_runs {
            Some("ffmpeg".to_string())
        } else if exe_runs {
            Some("ffmpeg.exe".to_string())
        } else {
            None
        },
    }
}

/// Whether an ffmpeg runs.
pub fn ffmpeg_available(installed: Option<String>, plain_runs: bool, exe_runs: bool) -> (r: bool)
    ensures
        r <==> ffmpeg_choice(text::opt_view(installed), plain_runs, exe_runs) is Some,
        r <==> installed is Some || plain_runs || exe_runs,
{
    ffmpeg_binary(installed, plain_runs, exe_runs).is_some()
}

/// Output path next to `input` with the target extension.
pub fn output_path(input: &str, target: ConvertTarget) -> (r: String)
    ensures
        r@ == paths::extended(input@, target.ext()),
{
    with_extension(input, target.extension())
}

/// The extensions that an MP3 conversion is offered for.
pub open spec fn convertible(ext: Seq<char>) -> bool {
    ||| ext == "mp4"@
    ||| ext == "mkv"@
    ||| ext == "avi"@
    ||| ext == "mov"@
    ||| ext == "wmv"@
    ||| ext == "flv"@
    ||| ext == "webm"@
    ||| ext == "m4v"@
    ||| ext == "ts"@
    ||| ext == "mp3"@
    ||| ext == "wav"@
    ||| ext == "flac"@
    ||| ext == "ogg"@
    ||| ext == "m4a"@
    ||| ext == "opus"@
    ||| ext == "wma"@
    ||| ext == "aac"@
}

/// Extensions worth offering an MP3 conversion for (video + audio).
pub fn convertible_to_mp3(file_name: &str) -> (r: bool)
    ensures
        r == (match names::ext_key(file_name@) {
            Some(ext) => convertible(ext),
            None => false,
        }),
{
    let key = match lower_ext(file_name) {
        Some(key) => key,
        None => {
            return false;
        },
    };
    let ext = key.as_str();
    same_text(ext, "mp4") || same_text(ext, "mkv") || same_text(ext, "avi") || same_text(ext, "mov") || same_text(ext, "wmv")
        || same_text(ext, "flv") || same_text(ext, "webm") || same_text(ext, "m4v") || same_text(ext, "ts") || same_text(
        ext,
        "mp3",
    ) || same_text(ext, "wav") || same_text(ext, "flac") || same_text(ext, "ogg") || same_text(ext, "m4a") || same_text(
        ext,
        "opus",
    ) || same_text(ext, "wma") || same_text(ext, "aac")
}

/// The arguments of a conversion.
pub open spec fn conversion(input: Seq<char>, target: ConvertTarget) -> Seq<Seq<char>> {
    let head = seq!["-y"@, "-i"@, input];
    let codec = match target {
        ConvertTarget::Mp3 => seq!["-vn"@, "-codec:a"@, "libmp3lame"@, "-q:a"@, "4"@],
        ConvertTarget::Mp4 => seq!["-c"@, "copy"@],
    };
    head + codec + seq![paths::extended(input, target.ext())]
}

/// The arguments with which ffmpeg converts `input` to `target` beside it.
pub fn convert_args(input: &str, target: ConvertTarget) -> (r: Vec<String>)
    ensures
        text::views(r@) == conversion(input@, target),
{
    let mut args: Vec<String> = vec!["-y".to_string(), "-i".to_string(), input.to_string()];
    match target {
        ConvertTarget::Mp3 => {
            args.push("-vn".to_string());
            args.push("-codec:a".to_string());
            args.push("libmp3lame".to_string());
            args.push("-q:a".to_string());
            args.push("4".to_string());
        },
        ConvertTarget::Mp4 => {
            args.push("-c".to_string());
            args.push("copy".to_string());
        },
    }
    args.push(output_path(input, target));
    assert(text::views(args@) =~= conversion(input@, target));
    args
}

/// The binary of a conversion, or the error that there is none.
pub fn require_ffmpeg(binary: Option<String>) -> (r: Result<String, CcdmError>)
    ensures
        (match r {
            Ok(b) => Ok(b@),
            Err(e) => Err(e@),
        }) == (match text::opt_view(binary) {
            Some(b) => Ok(b),
            None => Err(
                ErrorView::Other("ffmpeg not found — Setup video tools or install it"@),
            ),
        }),
{
    match binary {
        Some(b) => Ok(b),
        None => Err(
            CcdmError::Other("ffmpeg not found — Setup video tools or install it".to_string()),
        ),
    }
}

/// What a finished conversion of `input` means: the output, or the last lines
/// that ffmpeg wrote.
pub fn convert_outcome(input: &str, target: ConvertTarget, success: bool, stderr: &str) -> (r:
    Result<String, CcdmError>)
    ensures
        (match r {
            Ok(p) => Ok(p@),
            Err(e) => Err(e@),
        }) == (if success {
            Ok(paths::extended(input@, target.ext()))
        } else {
            Err(ErrorView::Other("ffmpeg failed: "@ + text::last_lines(stderr@, 5)))
        }),
{
    if success {
        Ok(output_path(input, target))
    } else {
        let mut text = chars_of("ffmpeg failed: ");
        append(&mut text, tail_of(stderr, 5).as_slice());
        Err(CcdmError::Other(string_of(text.as_slice())))
    }
}

/// The arguments with which ffmpeg muxes a video and an audio file (stream
/// copy, no re-encode).
pub fn mux_args(video: &str, audio: &str, output: &str) -> (r: Vec<String>)
    ensures
        text::views(r@) == seq!["-y"@, "-i"@, video@, "-i"@, audio@, "-c"@, "copy"@, output@],
{
    let args: Vec<String> = vec![
        "-y".to_string(),
        "-i".to_string(),
        video.to_string(),
        "-i".to_string(),
        audio.to_string(),
        "-c".to_string(),
        "copy".to_string(),
        output.to_string(),
    ];
    assert(text::views(args@) =~= seq!["-y"@, "-i"@, video@, "-i"@, audio@, "-c"@, "copy"@, output@]);
    args
}

/// What a finished mux means, given its exit status as it is shown.
pub fn mux_outcome(success: bool, status: &str) -> (r: Result<(), CcdmError>)
    ensures
        r is Ok <==> success,
        r matches Err(e) ==> e@ == ErrorView::Other("ffmpeg mux failed: "@ + status@),
{
    if success {
        Ok(())
    } else {
        Err(CcdmError::Other(error::concat("ffmpeg mux failed: ", status)))
    }
}

/// A conversion reads the input and writes beside it: the input follows `-i`, the
/// output comes last and has the extension of the target, and an existing
/// output is overwritten. For MP3 the video is left out and the audio encoded;
/// for MP4 the streams are copied.
pub proof fn conversion_reads_and_writes(input: Seq<char>, target: ConvertTarget)
    ensures
        ({
            let args = conversion(input, target);
            &&& args[0] == "-y"@
            &&& args[1] == "-i"@
            &&& args[2] == input
            &&& args.last() == paths::extended(
                input,
                match target {
                    ConvertTarget::Mp3 => "mp3"@,
                    ConvertTarget::Mp4 => "mp4"@,
                },
            )
            &&& target == ConvertTarget::Mp3 ==> args.len() == 9 && args[3] == "-vn"@ && args[4]
                == "-codec:a"@ && args[5] == "libmp3lame"@ && args[6] == "-q:a"@
                && args[7] == "4"@
            &&& target == ConvertTarget::Mp4 ==> args.len() == 6 && args[3] == "-c"@ && args[4]
                == "copy"@
        }),
{
}

/// The output of a conversion lies beside the input, under the same name with the
/// extension of the target.
pub proof fn output_lies_beside_the_input(input: Seq<char>, target: ConvertTarget)
    requires
        paths::has_name(paths::bare(input)),
    ensures
        paths::extension(conversion(input, target).last()) == Some(target.ext()),
        paths::stem_text(conversion(input, target).last()) == paths::stem_text(input),
{
    reveal_strlit("mp3");
    reveal_strlit("mp4");
    paths::new_extension_keeps_the_rest(input, target.ext());
}

/// An ffmpeg is found exactly where one is installed or answers; the installed
/// one comes first, and the plain name before the one with a suffix.
pub proof fn installed_ffmpeg_comes_first(
    installed: Option<Seq<char>>,
    plain_runs: bool,
    exe_runs: bool,
)
    ensures
        ffmpeg_choice(installed, plain_runs, exe_runs) is Some <==> installed is Some || plain_runs
            || exe_runs,
        installed is Some ==> ffmpeg_choice(installed, plain_runs, exe_runs) == installed,
        installed is None && plain_runs ==> ffmpeg_choice(installed, plain_runs, exe_runs) == Some(
            "ffmpeg"@,
        ),
        installed is None && !plain_runs && exe_runs ==> ffmpeg_choice(
            installed,
            plain_runs,
            exe_runs,
        ) == Some("ffmpeg.exe"@),
{
}

/// Helpers are installed in the program's own folder below the config directory.
pub proof fn tools_are_below_the_config_dir(config_dir: Seq<char>)
    requires
        config_dir.len() > 0,
        config_dir[config_dir.len() - 1] != '/',
    ensures
        tools_below(config_dir) == config_dir + "/ccdm/bin"@,
{
    reveal_strlit("ccdm");
    reveal_strlit("bin");
    reveal_strlit("/ccdm/bin");
    let below = paths::joined_path(config_dir, "ccdm"@);
    assert(below =~= config_dir.push('/') + "ccdm"@);
    assert(below.last() == 'm');
    assert(below.push('/') + "bin"@ =~= config_dir + "/ccdm/bin"@);
}

/// A conversion to MP3 is offered for the usual extensions of video and audio, in
/// any case, and for no name without an extension.
pub proof fn usual_media_are_convertible(stem: Seq<char>, ext: Seq<char>)
    requires
        forall|i: int| 0 <= i < ext.len() ==> #[trigger] ext[i] != '.',
    ensures
        names::ext_key(stem + seq!['.'] + ext) == Some(text::lower(ext)),
        convertible(text::lower(ext)) <==> {
            let e = text::lower(ext);
            ||| e == "mp4"@ || e == "mkv"@ || e == "avi"@ || e == "mov"@ || e == "wmv"@
            ||| e == "flv"@ || e == "webm"@ || e == "m4v"@ || e == "ts"@ || e == "mp3"@
            ||| e == "wav"@ || e == "flac"@ || e == "ogg"@ || e == "m4a"@ || e == "opus"@
            ||| e == "wma"@ || e == "aac"@
        },
        names::ext_key(ext) is None,
{
    names::extension_stands_behind_the_last_dot(stem, ext);
}

} // verus!
