//! Host power control. Only ever invoked on explicit user request.

use vstd::prelude::*;

use crate::text::{self, append, chars_of, decimal_of, string_of};

verus! {

/// The kind of system that a command is for.
#[derive(Debug, Clone, Copy, PartialEq, Eq, Structural)]
pub enum Platform {
    Windows,
    MacOs,
    /// Linux and its like.
    Unix,
}

/// The whole minutes that a delay takes, and at least one.
pub open spec fn minutes(secs: nat) -> nat {
    let m = (secs + 59) / 60;
    if m < 1 {
        1
    } else {
        m
    }
}

/// The program that powers the machine off.
pub open spec fn shutdown_program(platform: Platform) -> Seq<char> {
    match platform {
        Platform::MacOs => "osascript"@,
        _ => "shutdown"@,
    }
}

/// The arguments of the program.
pub open spec fn shutdown_args(platform: Platform, delay: nat) -> Seq<Seq<char>> {
    match platform {
        Platform::Windows => seq![
            "/s"@,
            "/t"@,
            text::decimal(delay),
            "/c"@,
            "ccdwonloadmanager: queue finished"@,
        ],
        Platform::MacOs => seq!["-e"@, "tell app \"System Events\" to shut down"@],
        Platform::Unix => seq!["-h"@, "+"@ + text::decimal(minutes(delay))],
    }
}

/// Command (program + args) that powers the machine off.
pub fn shutdown_command(platform: Platform, delay_secs: u64) -> (r: (String, Vec<String>))
    ensures
        r.0@ == shutdown_program(platform),
        text::views(r.1@) == shutdown_args(platform, delay_secs as nat),
{
    match platform {
        Platform::Windows => {
            let delay = decimal_of(delay_secs as u128);
            let args: Vec<String> = vec![
                "/s".to_string(),
                "/t".to_string(),
                string_of(delay.as_slice()),
                "/c".to_string(),
                "ccdwonloadmanager: queue finished".to_string(),
            ];
            assert(text::views(args@) =~= shutdown_args(platform, delay_secs as nat));
            ("shutdown".to_string(), args)
        },
        Platform::MacOs => {
            let args: Vec<String> = vec![
                "-e".to_string(),
                "tell app \"System Events\" to shut down".to_string(),
            ];
            assert(text::views(args@) =~= shutdown_args(platform, delay_secs as nat));
            ("osascript".to_string(), args)
        },
        Platform::Unix => {
            let m: u128 = (delay_secs as u128 + 59) / 60;
            let wait: u128 = if m < 1 {
                1
            } else {
                m
            };
            let mut when = chars_of("+");
            append(&mut when, decimal_of(wait).as_slice());
            let args: Vec<String> = vec!["-h".to_string(), string_of(when.as_slice())];
            assert(text::views(args@) =~= shutdown_args(platform, delay_secs as nat));
            ("shutdown".to_string(), args)
        },
    }
}

/// The machine is never powered off before the delay is over, nor more than a
/// minute late, except that it waits a minute at least.
pub proof fn shutdown_waits_for_the_delay(secs: nat)
    ensures
        minutes(secs) >= 1,
        minutes(secs) * 60 >= secs,
        secs > 0 ==> minutes(secs) * 60 < secs + 60,
{
}

/// What the exit of the program means: the error to report, if any.
pub fn shutdown_failure(program: &str, success: bool, status: &str) -> (r: Option<String>)
    ensures
        r is None <==> success,
        r matches Some(text) ==> text@ == program@ + " exited with "@ + status@,
{
    if success {
        None
    } else {
        let mut text = chars_of(program);
        append(&mut text, chars_of(" exited with ").as_slice());
        append(&mut text, chars_of(status).as_slice());
        Some(string_of(text.as_slice()))
    }
}

/// The delay that is handed to the program reads back: in seconds on Windows, and
/// elsewhere in minutes, enough of them for the delay.
pub proof fn delay_is_handed_on(delay: nat)
    requires
        delay <= u64::MAX,
    ensures
        ({
            let windows = shutdown_args(Platform::Windows, delay);
            let unix = shutdown_args(Platform::Unix, delay);
            &&& windows[0] == "/s"@ && windows[1] == "/t"@
            &&& text::number(windows[2], u64::MAX as nat) == Some(delay)
            &&& unix[0] == "-h"@
            &&& unix[1].len() > 0 && unix[1][0] == '+'
            &&& text::number(unix[1].skip(1), u64::MAX as nat) matches Some(m) && m >= 1 && m * 60
                >= delay && (delay > 0 ==> m * 60 < delay + 60)
        }),
        shutdown_program(Platform::Windows) == "shutdown"@,
        shutdown_program(Platform::Unix) == "shutdown"@,
        shutdown_program(Platform::MacOs) == "osascript"@,
{
    reveal_strlit("+");
    let m = minutes(delay);
    shutdown_waits_for_the_delay(delay);
    text::decimal_reads_back(delay);
    text::decimal_reads_back(m);
    assert(text::number(text::decimal(delay), u64::MAX as nat) == Some(delay));
    assert(text::number(text::decimal(m), u64::MAX as nat) == Some(m));
    let when = "+"@ + text::decimal(m);
    assert(when.skip(1) =~= text::decimal(m));
    assert(when[0] == '+');
}

} // verus!
