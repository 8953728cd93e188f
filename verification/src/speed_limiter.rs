//! Global speed limiter: compare actual with expected transfer time and
//! sleep the difference.

use vstd::prelude::*;

verus! {

/// `std::time::SystemTime`: a reading of the system clock.
#[verifier::external_type_specification]
#[verifier::external_body]
pub struct ExSystemTime(std::time::SystemTime);

/// The duration from the Unix epoch to a reading; none for a reading before it.
pub uninterp spec fn epoch_duration(t: std::time::SystemTime) -> Option<std::time::Duration>;

/// The whole seconds of a duration.
pub uninterp spec fn whole_seconds(d: std::time::Duration) -> nat;

/// The nanoseconds of a duration beyond its whole seconds.
pub uninterp spec fn extra_nanos(d: std::time::Duration) -> nat;

/// The whole milliseconds of a duration.
pub open spec fn whole_millis(d: std::time::Duration) -> nat {
    whole_seconds(d) * 1000 + extra_nanos(d) / 1_000_000
}

/// `std::time::SystemTime::now`. Nothing is claimed of the reading.
#[verifier::external_body]
fn system_time() -> (r: std::time::SystemTime) {
    std::time::SystemTime::now()
}

/// `std::time::SystemTime::duration_since` the Unix epoch; `None` for a reading
/// that is earlier. The result depends on the reading alone.
#[verifier::external_body]
fn since_epoch(t: std::time::SystemTime) -> (r: Option<std::time::Duration>)
    ensures
        r == epoch_duration(t),
{
    t.duration_since(std::time::UNIX_EPOCH).ok()
}

/// `std::time::Duration::as_secs`: the result depends on the duration alone.
#[verifier::external_body]
fn as_secs(d: &std::time::Duration) -> (r: u64)
    ensures
        r == whole_seconds(*d),
{
    d.as_secs()
}

/// `std::time::Duration::subsec_nanos`: the result depends on the duration
/// alone and is less than a second.
#[verifier::external_body]
fn subsec_nanos(d: &std::time::Duration) -> (r: u32)
    ensures
        r == extra_nanos(*d),
        r < 1_000_000_000,
{
    d.subsec_nanos()
}

/// The milliseconds from the Unix epoch to a reading of the clock; zero for a
/// clock that is set before it.
pub open spec fn clock_millis(t: std::time::SystemTime) -> nat {
    match epoch_duration(t) {
        Some(d) => whole_millis(d),
        None => 0,
    }
}

/// The milliseconds since the Unix epoch that a reading of the clock shows.
pub fn millis_at(t: std::time::SystemTime) -> (r: u128)
    ensures
        r == clock_millis(t),
        r <= u64::MAX * 1000 + 999,
{
    match since_epoch(t) {
        Some(d) => as_secs(&d) as u128 * 1000 + subsec_nanos(&d) as u128 / 1_000_000,
        None => 0,
    }
}

/// Current time in milliseconds since the Unix epoch: what a reading of the
/// clock shows. Which reading it is, is not described.
pub fn now_ms() -> (r: u128)
    ensures
        exists|t: std::time::SystemTime| r == #[trigger] clock_millis(t),
        r <= u64::MAX * 1000 + 999,
{
    millis_at(system_time())
}

/// Token-free throttler enforcing a global KiB/s cap.
#[derive(Debug)]
pub struct SpeedLimiter {
    /// 0 = unlimited.
    limit_kbps: u32,
    enabled: bool,
    last_tick_ms: u128,
    last_bytes: u64,
    /// Set on the very first observation.
    initialized: bool,
}

/// The state of a [`SpeedLimiter`]: the cap, and the last observation where
/// there was one.
pub struct LimiterView {
    pub limit_kbps: nat,
    pub enabled: bool,
    /// When, and how many bytes there were.
    pub last: Option<(nat, nat)>,
}

impl View for SpeedLimiter {
    type V = LimiterView;

    closed spec fn view(&self) -> LimiterView {
        LimiterView {
            limit_kbps: self.limit_kbps as nat,
            enabled: self.enabled,
            last: if self.initialized {
                Some((self.last_tick_ms as nat, self.last_bytes as nat))
            } else {
                None
            },
        }
    }
}

/// The least whole number that is not less than `a / b`.
pub open spec fn div_up(a: nat, b: nat) -> nat {
    if a % b == 0 {
        a / b
    } else {
        a / b + 1
    }
}

impl LimiterView {
    /// Whether throttling is on.
    pub open spec fn throttles(self) -> bool {
        self.enabled && self.limit_kbps > 0
    }

    /// The milliseconds that `bytes` take at the cap, rounded up.
    pub open spec fn due(self, bytes: nat) -> nat {
        div_up(bytes * 1000, self.limit_kbps * 1024)
    }

    /// How long to wait after an observation: as long as the bytes since the
    /// last one take at the cap, less the time that has passed. Nothing is
    /// waited without a cap, at the first observation, and where no time has
    /// passed.
    pub open spec fn delay(self, bytes: nat, now: nat) -> nat {
        match self.last {
            Some((then, had)) => if self.throttles() && now > then {
                let more = if bytes > had {
                    (bytes - had) as nat
                } else {
                    0
                };
                if self.due(more) > now - then {
                    (self.due(more) - (now - then)) as nat
                } else {
                    0
                }
            } else {
                0
            },
            None => 0,
        }
    }

    /// The state after an observation: it is the last one from then on, unless
    /// throttling is off or no time has passed.
    pub open spec fn observed(self, bytes: nat, now: nat) -> LimiterView {
        let takes = self.throttles() && match self.last {
            Some((then, _)) => now > then,
            None => true,
        };
        if takes {
            LimiterView { last: Some((now, bytes)), ..self }
        } else {
            self
        }
    }

    /// The state with another cap; the last observation stays.
    pub open spec fn capped_at(self, limit_kbps: nat, enabled: bool) -> LimiterView {
        LimiterView { limit_kbps, enabled, ..self }
    }

    /// How long is slept after an observation: the delay, as far as it is slept at
    /// once.
    pub open spec fn sleep(self, bytes: nat, now: nat) -> nat {
        if self.delay(bytes, now) < MAX_SLEEP_MS {
            self.delay(bytes, now)
        } else {
            MAX_SLEEP_MS as nat
        }
    }
}

/// The longest that is slept at once, in milliseconds.
pub const MAX_SLEEP_MS: u64 = 5_000;

impl SpeedLimiter {
    /// Create a limiter; `limit_kbps == 0` disables throttling.
    pub fn new(limit_kbps: u32, enabled: bool) -> (r: Self)
        ensures
            r@ == (LimiterView { limit_kbps: limit_kbps as nat, enabled, last: None }),
    {
        SpeedLimiter { limit_kbps, enabled, last_tick_ms: 0, last_bytes: 0, initialized: false }
    }

    /// Change the cap at runtime (0 = unlimited).
    pub fn set_limit(&mut self, limit_kbps: u32, enabled: bool)
        ensures
            final(self)@ == (LimiterView {
                limit_kbps: limit_kbps as nat,
                enabled,
                ..old(self)@
            }),
            final(self)@ == old(self)@.capped_at(limit_kbps as nat, enabled),
    {
        self.limit_kbps = limit_kbps;
        self.enabled = enabled;
    }

    /// Is throttling currently active?
    pub fn active(&self) -> (r: bool)
        ensures
            r == self@.throttles(),
    {
        self.enabled && self.limit_kbps > 0
    }

    /// Given the total bytes downloaded so far and `now_ms`, return how many
    /// milliseconds the caller should sleep. Updates the internal baseline.
    /// The first call only records the baseline and returns 0.
    pub fn throttle_delay_ms(&mut self, total_downloaded: u64, now_ms: u128) -> (r: u128)
        ensures
            r == old(self)@.delay(total_downloaded as nat, now_ms as nat),
            final(self)@ == old(self)@.observed(total_downloaded as nat, now_ms as nat),
            old(self)@.enabled && old(self)@.limit_kbps > 0 && (old(self)@.last matches Some(
                (then, _),
            ) ==> then < now_ms) ==> final(self)@.last == Some(
                (now_ms as nat, total_downloaded as nat),
            ),
    {
        if !self.active() {
            return 0;
        }
        if !self.initialized {
            self.initialized = true;
            self.last_bytes = total_downloaded;
            self.last_tick_ms = now_ms;
            return 0;
        }
        let actual: u128 = now_ms.saturating_sub(self.last_tick_ms);
        if actual < 1 {
            return 0;
        }
        let diff: u64 = total_downloaded.saturating_sub(self.last_bytes);
        self.last_bytes = total_downloaded;
        self.last_tick_ms = now_ms;
        let scaled: u128 = diff as u128 * 1000;
        let per_second: u128 = self.limit_kbps as u128 * 1024;
        let whole: u128 = scaled / per_second;
        let expected: u128 = if scaled % per_second == 0 {
            whole
        } else {
            assert(whole <= scaled) by (nonlinear_arith)
                requires
                    whole == scaled / per_second,
                    per_second > 0,
            ;
            whole + 1
        };
        if expected > actual {
            expected - actual
        } else {
            0
        }
    }

    /// How long to sleep after an observation, in milliseconds.
    pub fn sleep_ms(&mut self, total_downloaded: u64, now_ms: u128) -> (r: u64)
        ensures
            r == (if old(self)@.delay(total_downloaded as nat, now_ms as nat) < MAX_SLEEP_MS {
                old(self)@.delay(total_downloaded as nat, now_ms as nat)
            } else {
                MAX_SLEEP_MS as nat
            }),
            r == old(self)@.sleep(total_downloaded as nat, now_ms as nat),
            final(self)@ == old(self)@.observed(total_downloaded as nat, now_ms as nat),
    {
        let delay: u128 = self.throttle_delay_ms(total_downloaded, now_ms);
        if delay < MAX_SLEEP_MS as u128 {
            delay as u64
        } else {
            MAX_SLEEP_MS
        }
    }
}

/// The cap is kept from one observation to the next: the time that has passed
/// and the delay together are enough for the bytes that came, at the cap.
pub proof fn delay_keeps_the_cap(l: LimiterView, then: nat, had: nat, bytes: nat, now: nat)
    requires
        l.throttles(),
        l.last == Some((then, had)),
        then < now,
        had <= bytes,
    ensures
        (bytes - had) * 1000 <= l.limit_kbps * 1024 * (now - then + l.delay(bytes, now)),
{
    let more = (bytes - had) as nat;
    let a = more * 1000;
    let b = l.limit_kbps * 1024;
    let due = l.due(more);
    let spent = now - then + l.delay(bytes, now);
    assert(a <= b * due) by {
        vstd::arithmetic::div_mod::lemma_fundamental_div_mod(a as int, b as int);
        let q = a / b;
        assert(b * (q + 1) == b * q + b) by (nonlinear_arith);
    }
    assert(due <= spent);
    assert(b * due <= b * spent) by (nonlinear_arith)
        requires
            due <= spent,
            b >= 0,
    ;
}

/// The next delay is that of the bytes since the last observation that
/// counted, in the time since then: it is the least one that keeps the cap.
/// Bytes and times before that observation do not matter.
pub proof fn next_delay_counts_from_the_last_observation(
    l: LimiterView,
    bytes: nat,
    now: nat,
    bytes2: nat,
    now2: nat,
    d: nat,
)
    requires
        l.enabled,
        l.limit_kbps > 0,
        l.last matches Some((then, _)) ==> then < now,
        now < now2,
        bytes <= bytes2,
    ensures
        l.observed(bytes, now).delay(bytes2, now2) <= d <==> (bytes2 - bytes) * 1000
            <= l.limit_kbps * 1024 * (now2 - now + d),
        (bytes2 - bytes) * 1000 <= l.limit_kbps * 1024 * (now2 - now) ==> l.observed(
            bytes,
            now,
        ).delay(bytes2, now2) == 0,
        l.observed(bytes, now).limit_kbps == l.limit_kbps,
        l.observed(bytes, now).enabled == l.enabled,
{
    let next = l.observed(bytes, now);
    lemma_least_delay(next, now, bytes, bytes2, now2, d);
    lemma_least_delay(next, now, bytes, bytes2, now2, 0);
    assert(now2 - now + 0 == now2 - now);
}

proof fn lemma_least_delay(l: LimiterView, then: nat, had: nat, bytes: nat, now: nat, d: nat)
    requires
        l.throttles(),
        l.last == Some((then, had)),
        then < now,
        had <= bytes,
    ensures
        l.delay(bytes, now) <= d <==> (bytes - had) * 1000 <= l.limit_kbps * 1024 * (now - then
            + d),
{
    let delay = l.delay(bytes, now);
    let b = l.limit_kbps * 1024;
    delay_keeps_the_cap(l, then, had, bytes, now);
    if delay <= d {
        assert(b * (now - then + delay) <= b * (now - then + d)) by (nonlinear_arith)
            requires
                delay <= d,
                b >= 0,
        ;
    } else {
        delay_is_no_longer_than_needed(l, then, had, bytes, now);
        assert(b * (now - then + d) <= b * (now - then + delay - 1)) by (nonlinear_arith)
            requires
                d <= delay - 1,
                b >= 0,
        ;
    }
}

/// The delay depends on the bytes and the time since the last observation
/// alone, not on when it was made or on how many bytes there were then.
pub proof fn delay_depends_on_differences(
    l: LimiterView,
    m: LimiterView,
    at: (nat, nat),
    other: (nat, nat),
    more: nat,
    time: nat,
)
    requires
        l.enabled && m.enabled,
        l.limit_kbps == m.limit_kbps,
        l.limit_kbps > 0,
        l.last matches Some((then, _)) ==> then < at.1,
        m.last matches Some((then, _)) ==> then < other.1,
    ensures
        l.observed(at.0, at.1).delay(at.0 + more, at.1 + time) == m.observed(other.0, other.1).delay(
            other.0 + more,
            other.1 + time,
        ),
{
}

/// Nothing is waited without a cap, at the first observation, where no time has
/// passed, and where no bytes have come. An observation without a cap, or
/// while no time has passed, leaves the one before it as it was.
pub proof fn nothing_is_waited_without_need(l: LimiterView, bytes: nat, now: nat)
    ensures
        !l.enabled || l.limit_kbps == 0 ==> l.delay(bytes, now) == 0 && l.observed(bytes, now) == l,
        l.last is None ==> l.delay(bytes, now) == 0,
        l.last matches Some((then, _)) && now <= then ==> l.delay(bytes, now) == 0 && l.observed(
            bytes,
            now,
        ) == l,
        l.last matches Some((_, had)) && bytes <= had ==> l.delay(bytes, now) == 0,
{
    if let Some((then, had)) = l.last {
        if bytes <= had && l.throttles() && now > then {
            let b = l.limit_kbps * 1024;
            vstd::arithmetic::div_mod::lemma_div_basics(b as int);
            vstd::arithmetic::div_mod::lemma_small_mod(0, b);
            assert(l.due(0) == 0);
        }
    }
}

/// The milliseconds of a duration are its whole ones: as many as fit into its
/// nanoseconds.
pub proof fn millis_are_whole(d: std::time::Duration)
    ensures
        whole_millis(d) * 1_000_000 <= whole_seconds(d) * 1_000_000_000 + extra_nanos(d)
            < (whole_millis(d) + 1) * 1_000_000,
{
}

/// A delay is never longer than needed: a millisecond less would not have
/// been enough.
pub proof fn delay_is_no_longer_than_needed(
    l: LimiterView,
    then: nat,
    had: nat,
    bytes: nat,
    now: nat,
)
    requires
        l.last == Some((then, had)),
        l.delay(bytes, now) > 0,
    ensures
        l.limit_kbps * 1024 * (now - then + l.delay(bytes, now) - 1) < (bytes - had) * 1000,
{
    let b = l.limit_kbps * 1024;
    if bytes <= had {
        assert(0nat * 1000 == 0);
        vstd::arithmetic::div_mod::lemma_fundamental_div_mod(0, b as int);
        assert(l.due(0) == 0) by {
            vstd::arithmetic::div_mod::lemma_div_basics(b as int);
            vstd::arithmetic::div_mod::lemma_small_mod(0, b);
        }
    }
    let more = (bytes - had) as nat;
    let a = more * 1000;
    let due = l.due(more);
    assert(b * (due - 1) < a) by {
        vstd::arithmetic::div_mod::lemma_fundamental_div_mod(a as int, b as int);
        let q = a / b;
        assert(b * (q - 1) == b * q - b) by (nonlinear_arith);
    }
}

/// What is slept is the delay, and five seconds where it is longer than that. A
/// change of the cap keeps the last observation, and from there on the new cap
/// is kept.
pub proof fn sleep_is_the_delay_up_to_a_limit(
    l: LimiterView,
    bytes: nat,
    now: nat,
    limit_kbps: nat,
    enabled: bool,
)
    ensures
        l.sleep(bytes, now) <= 5_000,
        l.sleep(bytes, now) <= l.delay(bytes, now),
        l.delay(bytes, now) <= 5_000 ==> l.sleep(bytes, now) == l.delay(bytes, now),
        l.delay(bytes, now) > 5_000 ==> l.sleep(bytes, now) == 5_000,
        l.capped_at(limit_kbps, enabled).last == l.last,
        l.capped_at(limit_kbps, enabled).throttles() <==> enabled && limit_kbps > 0,
        l.capped_at(limit_kbps, enabled).limit_kbps == limit_kbps,
        l.throttles() <==> l.enabled && l.limit_kbps > 0,
{
}

} // verus!
