//! Download window scheduler: a weekly bitmask plus a daily time window in
//! local time. Times are minutes since midnight.

use vstd::prelude::*;

use crate::text::{
    self, append, chars_of, decimal_of, parse_number, position, string_of, trimmed, CharClass,
};

verus! {

/// Bit `i` (0 = Monday … 6 = Sunday) means scheduled that day.
pub const ALL_DAYS: u8 = 0x7F;

pub const WEEKDAYS: u8 = 0x1F;

pub const WEEKEND: u8 = 0x60;

/// The last minute of a day.
pub const LAST_MINUTE: u16 = 1439;

/// A moment of a week in local time.
#[derive(Debug, Clone, Copy, PartialEq, Eq, Structural)]
pub struct Moment {
    /// Days since Monday.
    pub weekday: u8,
    pub hour: u8,
    pub minute: u8,
}

impl Moment {
    /// Whether the day, the hour and the minute exist.
    pub open spec fn valid(self) -> bool {
        self.weekday < 7 && self.hour < 24 && self.minute < 60
    }

    /// Minutes since midnight.
    pub open spec fn minutes(self) -> int {
        self.hour * 60 + self.minute
    }
}

/// Run downloads only inside this weekly window.
#[derive(Debug, Clone, Copy, PartialEq, Eq, Structural)]
pub struct Schedule {
    /// Weekday bitmask, bit0 = Monday.
    pub days: u8,
    /// Window start, minutes since midnight.
    pub start_minutes: u16,
    /// Window end, minutes since midnight. Earlier than start = overnight.
    pub end_minutes: u16,
}

/// Whether a bitmask holds a day.
pub open spec fn has_day(days: u8, weekday: u8) -> bool {
    days & (1u8 << weekday) != 0
}

/// A time of day, no later than the last minute.
pub open spec fn capped(minutes: u16) -> int {
    if minutes < LAST_MINUTE {
        minutes as int
    } else {
        LAST_MINUTE as int
    }
}

/// Whether a minute lies in the window from `start` up to `end`, which runs
/// over midnight where the end comes first.
pub open spec fn in_window(start: int, end: int, now: int) -> bool {
    if start <= end {
        start <= now < end
    } else {
        start <= now || now < end
    }
}

impl Schedule {
    /// Whether a moment falls inside the window.
    pub open spec fn covers(self, m: Moment) -> bool {
        has_day(self.days, m.weekday) && in_window(
            capped(self.start_minutes),
            capped(self.end_minutes),
            m.minutes(),
        )
    }

    /// Daily 01:00–06:00 night window (kind to daytime bandwidth).
    pub fn nightly() -> (r: Self)
        ensures
            r == (Schedule { days: ALL_DAYS, start_minutes: 60, end_minutes: 360 }),
    {
        Schedule { days: ALL_DAYS, start_minutes: 60, end_minutes: 360 }
    }

    /// Whether `moment` falls inside the window.
    pub fn allows(&self, moment: Moment) -> (r: bool)
        requires
            moment.valid(),
        ensures
            r == self.covers(moment),
    {
        if self.days & (1u8 << moment.weekday) == 0 {
            return false;
        }
        let now: u16 = moment.hour as u16 * 60 + moment.minute as u16;
        let start: u16 = if self.start_minutes < LAST_MINUTE {
            self.start_minutes
        } else {
            LAST_MINUTE
        };
        let end: u16 = if self.end_minutes < LAST_MINUTE {
            self.end_minutes
        } else {
            LAST_MINUTE
        };
        if start <= end {
            now >= start && now < end
        } else {
            now >= start || now < end
        }
    }
}

/// A window and the window with its ends exchanged share the day between them:
/// every minute lies in exactly one of the two.
pub proof fn reversed_window_is_the_rest(start: int, end: int, now: int)
    requires
        start != end,
    ensures
        in_window(start, end, now) != in_window(end, start, now),
{
}

/// A window includes the minute that it starts at, and not the one that it
/// ends at.
pub proof fn window_end_is_excluded(start: int, end: int)
    requires
        start != end,
    ensures
        in_window(start, end, start),
        !in_window(start, end, end),
{
}

/// The named bitmasks: weekdays and weekend are the days of the week, and no
/// day is both.
pub proof fn week_is_weekdays_and_weekend(weekday: u8)
    requires
        weekday < 7,
    ensures
        has_day(ALL_DAYS, weekday),
        has_day(WEEKDAYS, weekday) <==> weekday < 5,
        has_day(WEEKEND, weekday) <==> weekday >= 5,
{
    assert(0x7Fu8 & (1u8 << weekday) != 0) by (bit_vector)
        requires
            weekday < 7,
    ;
    assert((0x1Fu8 & (1u8 << weekday) != 0) == (weekday < 5)) by (bit_vector)
        requires
            weekday < 7,
    ;
    assert((0x60u8 & (1u8 << weekday) != 0) == (weekday >= 5)) by (bit_vector)
        requires
            weekday < 7,
    ;
}

/// The minutes since midnight that `HH:MM` stands for.
pub open spec fn clock_value(s: Seq<char>) -> Option<nat> {
    let t = text::trim(s);
    let at = text::index_of(t, CharClass::One(':')) as int;
    if at >= t.len() {
        None
    } else {
        match (text::number(text::trim(t.take(at)), u16::MAX as nat), text::number(
            text::trim(t.skip(at + 1)),
            u16::MAX as nat,
        )) {
            (Some(h), Some(m)) => if h < 24 && m < 60 {
                Some(h * 60 + m)
            } else {
                None
            },
            _ => None,
        }
    }
}

/// `n` with two digits at least.
pub open spec fn two_digits(n: nat) -> Seq<char> {
    if n < 10 {
        seq!['0'] + text::decimal(n)
    } else {
        text::decimal(n)
    }
}

/// `HH:MM`.
pub open spec fn clock_text(minutes: nat) -> Seq<char> {
    two_digits(minutes / 60) + seq![':'] + two_digits(minutes % 60)
}

/// The names of the scheduled days among the first `n`, Monday first.
pub open spec fn day_names(days: u8, n: nat) -> Seq<Seq<char>>
    decreases n,
{
    if n == 0 {
        Seq::empty()
    } else {
        let head = day_names(days, (n - 1) as nat);
        if has_day(days, (n - 1) as u8) {
            head.push(day_name((n - 1) as nat))
        } else {
            head
        }
    }
}

/// The name of a day.
pub open spec fn day_name(weekday: nat) -> Seq<char> {
    if weekday == 0 {
        "Mon"@
    } else if weekday == 1 {
        "Tue"@
    } else if weekday == 2 {
        "Wed"@
    } else if weekday == 3 {
        "Thu"@
    } else if weekday == 4 {
        "Fri"@
    } else if weekday == 5 {
        "Sat"@
    } else {
        "Sun"@
    }
}

/// The scheduled days in words.
pub open spec fn days_text(days: u8) -> Seq<char> {
    if days == ALL_DAYS {
        "daily"@
    } else if days == WEEKDAYS {
        "weekdays"@
    } else if days == WEEKEND {
        "weekends"@
    } else if day_names(days, 7).len() == 0 {
        "never"@
    } else {
        text::join(day_names(days, 7), ","@)
    }
}

fn name_of_day(weekday: u8) -> (r: Vec<char>)
    ensures
        r@ == day_name(weekday as nat),
{
    if weekday == 0 {
        chars_of("Mon")
    } else if weekday == 1 {
        chars_of("Tue")
    } else if weekday == 2 {
        chars_of("Wed")
    } else if weekday == 3 {
        chars_of("Thu")
    } else if weekday == 4 {
        chars_of("Fri")
    } else if weekday == 5 {
        chars_of("Sat")
    } else {
        chars_of("Sun")
    }
}

fn listed_days(days: u8) -> (r: Vec<char>)
    ensures
        r@ == (if day_names(days, 7).len() == 0 {
            "never"@
        } else {
            text::join(day_names(days, 7), ","@)
        }),
{
    let mut out: Vec<char> = Vec::new();
    let mut any = false;
    let mut i: u8 = 0;
    while i < 7
        invariant
            i <= 7,
            any <==> day_names(days, i as nat).len() > 0,
            out@ == text::join(day_names(days, i as nat), ","@),
        decreases 7 - i,
    {
        if days & (1u8 << i) != 0 {
            let ghost head = day_names(days, i as nat);
            if any {
                append(&mut out, chars_of(",").as_slice());
            }
            append(&mut out, name_of_day(i).as_slice());
            any = true;
            let ghost list = day_names(days, (i + 1) as nat);
            assert(list == head.push(day_name(i as nat)));
            assert(list.drop_last() =~= head);
            assert(list.last() == day_name(i as nat));
        }
        i = i + 1;
    }
    if any {
        out
    } else {
        chars_of("never")
    }
}

fn push_two_digits(out: &mut Vec<char>, n: u16)
    ensures
        final(out)@ == old(out)@ + two_digits(n as nat),
{
    if n < 10 {
        out.push('0');
    }
    append(out, decimal_of(n as u128).as_slice());
    assert(out@ =~= old(out)@ + two_digits(n as nat));
}

fn push_clock(out: &mut Vec<char>, minutes: u16)
    ensures
        final(out)@ == old(out)@ + clock_text(minutes as nat),
{
    push_two_digits(out, minutes / 60);
    out.push(':');
    push_two_digits(out, minutes % 60);
    assert(out@ =~= old(out)@ + clock_text(minutes as nat));
}

impl Schedule {
    /// Parse `HH:MM` (24h) to minutes since midnight.
    pub fn parse_hhmm(s: &str) -> (r: Option<u16>)
        ensures
            (match r {
                Some(n) => Some(n as nat),
                None => None,
            }) == clock_value(s@),
    {
        let all = chars_of(s);
        let t = trimmed(all.as_slice());
        let n: usize = t.len();
        let at = position(t, CharClass::One(':'));
        if at >= n {
            return None;
        }
        let hours = match parse_number(trimmed(&t[0..at]), u16::MAX as u64) {
            Some(h) => h,
            None => {
                return None;
            },
        };
        match parse_number(trimmed(&t[at + 1..n]), u16::MAX as u64) {
            Some(m) => if hours < 24 && m < 60 {
                Some((hours * 60 + m) as u16)
            } else {
                None
            },
            None => None,
        }
    }

    /// The scheduled window in words, e.g. `weekdays 01:00–06:00`.
    pub open spec fn text(self) -> Seq<char> {
        days_text(self.days) + " "@ + clock_text(self.start_minutes as nat) + "–"@ + clock_text(
            self.end_minutes as nat,
        )
    }

    /// Short human form, e.g. `weekdays 01:00–06:00`.
    pub fn describe(&self) -> (r: String)
        ensures
            r@ == self.text(),
    {
        let mut out = if self.days == ALL_DAYS {
            chars_of("daily")
        } else if self.days == WEEKDAYS {
            chars_of("weekdays")
        } else if self.days == WEEKEND {
            chars_of("weekends")
        } else {
            listed_days(self.days)
        };
        append(&mut out, chars_of(" ").as_slice());
        push_clock(&mut out, self.start_minutes);
        append(&mut out, chars_of("–").as_slice());
        push_clock(&mut out, self.end_minutes);
        string_of(out.as_slice())
    }
}

proof fn lemma_two_digits(n: nat)
    requires
        n < 60,
    ensures
        two_digits(n).len() == 2,
        two_digits(n) == seq![text::digit(n / 10), text::digit(n % 10)],
        text::number(two_digits(n), u16::MAX as nat) == Some(n),
{
    assert(text::decimal(n / 10) =~= seq![text::digit(n / 10)]);
    let s = two_digits(n);
    if n < 10 {
        assert(text::decimal(n) =~= seq![text::digit(n)]);
        assert(s =~= seq![text::digit(0), text::digit(n)]);
    } else {
        assert(s =~= seq![text::digit(n / 10), text::digit(n % 10)]);
    }
    let one = seq![text::digit(n / 10)];
    assert(s.drop_last() =~= one);
    assert(one.drop_last() =~= Seq::empty());
    assert(text::digits_value(one.drop_last()) == 0);
    assert(text::digits_value(one) == n / 10);
    assert(text::digits_value(s) == n);
    assert(text::all_digits(s));
}

/// A time of day that is shown reads back as the same time.
pub proof fn shown_time_reads_back(minutes: nat)
    requires
        minutes <= LAST_MINUTE,
    ensures
        clock_value(clock_text(minutes)) == Some(minutes),
{
    let h = minutes / 60;
    let m = minutes % 60;
    lemma_two_digits(h);
    lemma_two_digits(m);
    let s = clock_text(minutes);
    assert(s =~= seq![text::digit(h / 10), text::digit(h % 10), ':', text::digit(m / 10), text::digit(m % 10)]);
    lemma_untrimmed(s);
    text::lemma_index_of(s, CharClass::One(':'));
    let at = text::index_of(s, CharClass::One(':')) as int;
    assert(CharClass::One(':').has(s[2]));
    assert(at == 2) by {
        assert(!CharClass::One(':').has(s[0]));
        assert(!CharClass::One(':').has(s[1]));
    }
    assert(s.take(at) =~= two_digits(h));
    assert(s.skip(at + 1) =~= two_digits(m));
    lemma_untrimmed(two_digits(h));
    lemma_untrimmed(two_digits(m));
}

/// A text without white space at its ends is its own trimmed form.
proof fn lemma_untrimmed(s: Seq<char>)
    requires
        s.len() > 0,
        !text::is_space(s[0]),
        !text::is_space(s.last()),
    ensures
        text::trim(s) == s,
{
}

/// A moment is covered exactly on a scheduled day and inside the window: between
/// its start and its end where the start comes first, and else outside the gap
/// from the end to the start. Times behind the last minute count as that.
pub proof fn window_is_kept_to(s: Schedule, m: Moment)
    requires
        m.valid(),
    ensures
        ({
            let start = if s.start_minutes <= 1439 {
                s.start_minutes as int
            } else {
                1439
            };
            let end = if s.end_minutes <= 1439 {
                s.end_minutes as int
            } else {
                1439
            };
            let now = m.hour * 60 + m.minute;
            &&& start <= end ==> (s.covers(m) <==> has_day(s.days, m.weekday) && start <= now < end)
            &&& end < start ==> (s.covers(m) <==> has_day(s.days, m.weekday) && !(end <= now
                < start))
        }),
{
}

/// A day is scheduled by its own bit and by no other.
pub proof fn each_day_has_its_bit(days: u8, weekday: u8, other: u8)
    requires
        weekday < 7,
        other < 7,
    ensures
        has_day(1u8 << other, weekday) <==> weekday == other,
        has_day(days | (1u8 << other), weekday) <==> has_day(days, weekday) || weekday == other,
        !has_day(0, weekday),
{
    assert(((1u8 << other) & (1u8 << weekday) != 0) == (weekday == other)) by (bit_vector)
        requires
            weekday < 7,
            other < 7,
    ;
    assert(((days | (1u8 << other)) & (1u8 << weekday) != 0) == (days & (1u8 << weekday) != 0
        || weekday == other)) by (bit_vector)
        requires
            weekday < 7,
            other < 7,
    ;
    assert(0u8 & (1u8 << weekday) == 0) by (bit_vector);
}

/// A time of day is read from its hours and its minutes, and only where both
/// exist.
pub proof fn times_of_day_exist(h: nat, m: nat)
    requires
        h <= u16::MAX,
        m <= u16::MAX,
    ensures
        clock_value(text::decimal(h) + seq![':'] + text::decimal(m)) == (if h < 24 && m < 60 {
            Some(h * 60 + m)
        } else {
            None
        }),
        clock_value(text::decimal(h)) is None,
{
    let a = text::decimal(h);
    let b = text::decimal(m);
    let s = a + seq![':'] + b;
    text::decimal_reads_back(h);
    text::decimal_reads_back(m);
    assert('0' <= a[0] <= '9' && '0' <= a[a.len() - 1] <= '9');
    assert('0' <= b[0] <= '9' && '0' <= b[b.len() - 1] <= '9');
    assert(s[0] == a[0]);
    assert(s.last() == b[b.len() - 1]);
    lemma_untrimmed(s);
    lemma_untrimmed(a);
    lemma_untrimmed(b);
    let colon = CharClass::One(':');
    assert forall|i: int| 0 <= i < a.len() implies !colon.has(#[trigger] a[i]) by {
        assert('0' <= a[i] <= '9');
    }
    text::cut_at_the_first(a, ':', b, colon);
    assert(s.take(a.len() as int) =~= a);
    assert(s.skip(a.len() as int + 1) =~= b);
    assert(text::number(a, u16::MAX as nat) == Some(h));
    assert(text::number(b, u16::MAX as nat) == Some(m));
}

/// The days in words are those that are scheduled, each once, Monday first.
pub proof fn scheduled_days_are_named(days: u8, n: nat, weekday: nat)
    requires
        n <= 7,
        weekday < 7,
    ensures
        day_names(days, n).contains(day_name(weekday)) <==> weekday < n && has_day(
            days,
            weekday as u8,
        ),
        day_names(days, n).len() <= n,
        has_day(days, weekday as u8) && weekday < n ==> day_names(
            days,
            n,
        )[day_names(days, weekday).len() as int] == day_name(weekday),
    decreases n,
{
    if n > 0 {
        let k = (n - 1) as nat;
        let head = day_names(days, k);
        scheduled_days_are_named(days, k, weekday);
        let all = day_names(days, n);
        lemma_day_names_differ(weekday, k);
        if has_day(days, k as u8) {
            assert(all == head.push(day_name(k)));
            assert(all[head.len() as int] == day_name(k));
            if head.contains(day_name(weekday)) {
                let i = choose|i: int| 0 <= i < head.len() && head[i] == day_name(weekday);
                assert(all[i] == day_name(weekday));
            }
            if all.contains(day_name(weekday)) && weekday != k {
                let i = choose|i: int| 0 <= i < all.len() && all[i] == day_name(weekday);
                assert(i < head.len());
                assert(head[i] == day_name(weekday));
            }
            if weekday < k && has_day(days, weekday as u8) {
                lemma_names_grow(days, weekday + 1, k);
                let at = day_names(days, weekday).len() as int;
                assert(day_names(days, weekday + 1).len() == at + 1);
                assert(all[at] == head[at]);
            }
        }
    }
}

proof fn lemma_names_grow(days: u8, k: nat, n: nat)
    requires
        k <= n,
    ensures
        day_names(days, k).len() <= day_names(days, n).len(),
    decreases n,
{
    if k < n {
        lemma_names_grow(days, k, (n - 1) as nat);
    }
}

proof fn lemma_day_names_differ(a: nat, b: nat)
    requires
        a < 7,
        b < 7,
    ensures
        day_name(a) == day_name(b) <==> a == b,
{
    reveal_strlit("Mon");
    reveal_strlit("Tue");
    reveal_strlit("Wed");
    reveal_strlit("Thu");
    reveal_strlit("Fri");
    reveal_strlit("Sat");
    reveal_strlit("Sun");
    let x = day_name(a);
    let y = day_name(b);
    if a != b {
        assert(x[0] != y[0] || x[1] != y[1]);
    }
}

/// A time of day is shown with two digits for the hour and two for the minute.
pub proof fn times_are_shown_with_two_digits(minutes: nat)
    requires
        minutes <= LAST_MINUTE,
    ensures
        clock_text(minutes).len() == 5,
        clock_text(minutes)[2] == ':',
        text::number(clock_text(minutes).take(2), u16::MAX as nat) == Some(minutes / 60),
        text::number(clock_text(minutes).skip(3), u16::MAX as nat) == Some(minutes % 60),
{
    lemma_two_digits(minutes / 60);
    lemma_two_digits(minutes % 60);
    let s = clock_text(minutes);
    assert(s.take(2) =~= two_digits(minutes / 60));
    assert(s.skip(3) =~= two_digits(minutes % 60));
}

/// A window is described by its days, its start and its end, in that order; the
/// usual weeks have names of their own, and an empty one is never.
pub proof fn window_is_described(s: Schedule)
    ensures
        s.text() == days_text(s.days) + " "@ + clock_text(s.start_minutes as nat) + "–"@
            + clock_text(s.end_minutes as nat),
        s.days == 0x7F ==> days_text(s.days) == "daily"@,
        s.days == 0x1F ==> days_text(s.days) == "weekdays"@,
        s.days == 0x60 ==> days_text(s.days) == "weekends"@,
        s.days == 0 ==> days_text(s.days) == "never"@,
        s.days != 0x7F && s.days != 0x1F && s.days != 0x60 && day_names(s.days, 7).len() > 0
            ==> days_text(s.days) == text::join(day_names(s.days, 7), ","@),
{
    if s.days == 0 {
        lemma_no_days(7);
    }
}

proof fn lemma_no_days(n: nat)
    requires
        n <= 7,
    ensures
        day_names(0, n).len() == 0,
    decreases n,
{
    if n > 0 {
        lemma_no_days((n - 1) as nat);
        let w = (n - 1) as u8;
        assert(0u8 & (1u8 << w) == 0) by (bit_vector);
    }
}

/// Downloads are allowed exactly on the scheduled days and between the start and
/// the end of the window, or, where the end comes first, outside the gap from
/// the end to the start.
pub proof fn allowed_moments_are_in_the_window(s: &Schedule, m: Moment, r: bool)
    requires
        call_ensures(Schedule::allows, (s, m), r),
        m.valid(),
        s.start_minutes <= 1439,
        s.end_minutes <= 1439,
    ensures
        ({
            let now = m.hour * 60 + m.minute;
            &&& s.start_minutes <= s.end_minutes ==> (r <==> has_day(s.days, m.weekday)
                && s.start_minutes <= now < s.end_minutes)
            &&& s.end_minutes < s.start_minutes ==> (r <==> has_day(s.days, m.weekday) && !(
            s.end_minutes <= now < s.start_minutes))
        }),
{
    window_is_kept_to(*s, m);
}

/// White space around a time of day, and around its parts, does not matter.
pub proof fn space_in_a_time_does_not_matter(
    a: Seq<char>,
    h: nat,
    b: Seq<char>,
    c: Seq<char>,
    m: nat,
    d: Seq<char>,
)
    requires
        text::blank(a) && text::blank(b) && text::blank(c) && text::blank(d),
        h < 24,
        m < 60,
    ensures
        clock_value(a + (text::decimal(h) + b + seq![':'] + c + text::decimal(m)) + d) == Some(
            h * 60 + m,
        ),
{
    let x = text::decimal(h);
    let y = text::decimal(m);
    text::decimal_reads_back(h);
    text::decimal_reads_back(m);
    assert('0' <= x[0] <= '9' && '0' <= x[x.len() - 1] <= '9');
    assert('0' <= y[0] <= '9' && '0' <= y[y.len() - 1] <= '9');
    let core = x + b + seq![':'] + c + y;
    assert(core[0] == x[0] && core[core.len() - 1] == y[y.len() - 1]);
    text::trimming_keeps_the_core(a, core, d);
    let head = x + b;
    let tail = c + y;
    assert(core =~= head + seq![':'] + tail);
    let colon = CharClass::One(':');
    assert forall|i: int| 0 <= i < head.len() implies !colon.has(#[trigger] head[i]) by {
        if i < x.len() {
            assert(head[i] == x[i]);
            assert('0' <= x[i] <= '9');
        } else {
            assert(head[i] == b[i - x.len()]);
            assert(text::is_space(b[i - x.len()]));
        }
    }
    text::cut_at_the_first(head, ':', tail, colon);
    assert(core.take(head.len() as int) =~= head);
    assert(core.skip(head.len() as int + 1) =~= tail);
    let none = Seq::<char>::empty();
    text::trimming_keeps_the_core(none, x, b);
    assert(none + x + b =~= head);
    text::trimming_keeps_the_core(c, y, none);
    assert(c + y + none =~= tail);
    assert(text::number(x, u16::MAX as nat) == Some(h));
    assert(text::number(y, u16::MAX as nat) == Some(m));
}

} // verus!
