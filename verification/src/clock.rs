//! Instants in UTC and the calendar arithmetic the bot does on them.
use vstd::prelude::*;
use chrono::TimeZone;

verus! {

/// Seconds in a day.
pub const SECS_PER_DAY: i64 = 86400;

/// Nanoseconds in a second.
pub const NANOS_PER_SEC: u32 = 1_000_000_000;

/// A bound on the magnitude of any timestamp that a `chrono::DateTime<Utc>`
/// can hold (its years stay within about ±262 000).
pub const TIMESTAMP_LIMIT: i64 = 10_000_000_000_000;

/// The last second a `chrono::DateTime<Utc>` reaches:
/// +262142-12-31T23:59:59 UTC.
pub const CHRONO_MAX_SECS: i64 = 8_210_266_876_799;

/// An instant in UTC: whole seconds since the Unix epoch and the nanoseconds
/// past that second.
#[derive(Clone, Copy, Debug, PartialEq, Eq)]
pub struct UtcInstant {
    pub secs: i64,
    pub nanos: u32,
}

impl UtcInstant {
    /// The instant is a valid non-leap time.
    pub open spec fn wf(self) -> bool {
        self.nanos < NANOS_PER_SEC
    }

    /// Nanoseconds since the Unix epoch.
    pub open spec fn total_nanos(self) -> int {
        self.secs * 1_000_000_000 + self.nanos
    }
}

/// Whole seconds from `earlier` to `later`, truncated toward zero, which is
/// what `(later - earlier).num_seconds()` gives.
pub open spec fn elapsed_secs(later: UtcInstant, earlier: UtcInstant) -> int {
    let d = later.total_nanos() - earlier.total_nanos();
    if d >= 0 {
        d / 1_000_000_000
    } else {
        -((-d) / 1_000_000_000)
    }
}

/// Whole seconds from `earlier` to `later`.
pub fn elapsed_secs_between(later: UtcInstant, earlier: UtcInstant) -> (r: i128)
    ensures
        r == elapsed_secs(later, earlier),
{
    let a: i128 = later.secs as i128 * 1_000_000_000 + later.nanos as i128;
    let b: i128 = earlier.secs as i128 * 1_000_000_000 + earlier.nanos as i128;
    let d = a - b;
    if d >= 0 {
        d / 1_000_000_000
    } else {
        -((-d) / 1_000_000_000)
    }
}

/// The current time (`chrono::Utc::now()`). The value depends on the clock;
/// what holds of every value is that it lies at or after the Unix epoch (the
/// call panics for an earlier system time), within the range chrono can
/// represent, with sub-second nanoseconds below one second.
#[verifier::external_body]
pub(crate) fn utc_now() -> (r: UtcInstant)
    ensures
        0 <= r.secs <= CHRONO_MAX_SECS,
        r.wf(),
{
    let now = chrono::Utc::now();
    UtcInstant { secs: now.timestamp(), nanos: now.timestamp_subsec_nanos() }
}

/// The text that `Utc.timestamp_opt(secs, 0).single().map(|d| d.format("%Y-%m-%d %H:%M UTC").to_string())`
/// produces: the date and minute of a timestamp, or `None` when chrono cannot
/// represent it.
pub uninterp spec fn utc_minute_text(secs: i64) -> Option<Seq<char>>;

/// `Utc.timestamp_opt(secs, 0).single()` formatted with `"%Y-%m-%d %H:%M UTC"`.
#[verifier::external_body]
pub(crate) fn format_utc_minute(secs: i64) -> (r: Option<String>)
    ensures
        r matches Some(t) ==> utc_minute_text(secs) == Some(t@),
        r is None ==> utc_minute_text(secs) is None,
{
    match chrono::Utc.timestamp_opt(secs, 0).single() {
        Some(d) => Some(d.format("%Y-%m-%d %H:%M UTC").to_string()),
        None => None,
    }
}

/// The date and minute of `secs`, or `fallback` when it cannot be represented.
pub open spec fn minute_stamp(secs: i64, fallback: Seq<char>) -> Seq<char> {
    match utc_minute_text(secs) {
        Some(t) => t,
        None => fallback,
    }
}

/// The date and minute of `secs` as text, or `fallback`.
pub fn minute_stamp_text(secs: i64, fallback: &str) -> (r: String)
    ensures
        r@ == minute_stamp(secs, fallback@),
{
    match format_utc_minute(secs) {
        Some(t) => t,
        None => fallback.to_owned(),
    }
}

/// Seconds since midnight UTC of the timestamp `t`.
pub open spec fn seconds_of_day(t: int) -> int {
    t % 86400
}

/// Seconds since midnight UTC of `t`.
pub fn seconds_of_day_of(t: i64) -> (r: i64)
    ensures
        r == seconds_of_day(t as int),
        0 <= r < 86400,
{
    // Shift by a whole number of days to a non-negative value first.
    let shifted: u128 = (t as i128 + 86400 * 0x10_0000_0000_0000) as u128;
    let r = (shifted % 86400) as i64;
    assert((t + 86400 * 0x10_0000_0000_0000) % 86400 == t % 86400) by {
        vstd::arithmetic::div_mod::lemma_mod_multiples_vanish(0x10_0000_0000_0000, t as int, 86400);
    }
    r
}

/// The hour (0–23) of the UTC time `t`, as `chrono::Timelike::hour` gives it.
pub open spec fn hour_of(t: int) -> int {
    seconds_of_day(t) / 3600
}

/// The minute (0–59) of the UTC time `t`, as `chrono::Timelike::minute` gives it.
pub open spec fn minute_of(t: int) -> int {
    (seconds_of_day(t) % 3600) / 60
}

/// The hour and minute of the UTC time `t`.
pub fn hour_minute_of(t: i64) -> (r: (u32, u32))
    ensures
        r.0 == hour_of(t as int),
        r.1 == minute_of(t as int),
        r.0 < 24,
        r.1 < 60,
{
    let s = seconds_of_day_of(t);
    ((s / 3600) as u32, ((s % 3600) / 60) as u32)
}

/// The most recent moment, at or before `now`, whose UTC wall-clock time is
/// `hour:minute:00`.
pub open spec fn scheduled_occurrence(now: int, hour: int, minute: int) -> int {
    let today = now - seconds_of_day(now) + hour * 3600 + minute * 60;
    if now >= today {
        today
    } else {
        today - 86400
    }
}

/// The most recent past occurrence of `hour:minute` UTC relative to `now`:
/// today's if it has arrived, yesterday's otherwise.
pub fn scheduled_occurrence_at(now: i64, hour: u32, minute: u32) -> (r: i64)
    requires
        hour <= 23,
        minute <= 59,
        -TIMESTAMP_LIMIT <= now <= TIMESTAMP_LIMIT,
    ensures
        r == scheduled_occurrence(now as int, hour as int, minute as int),
{
    let sod = seconds_of_day_of(now);
    let today = now - sod + hour as i64 * 3600 + minute as i64 * 60;
    if now >= today {
        today
    } else {
        today - 86400
    }
}

/// The most recent past occurrence of `hour:minute` UTC, relative to now.
pub fn most_recent_scheduled_occurrence(hour: u32, minute: u32) -> (r: i64)
    requires
        hour <= 23,
        minute <= 59,
    ensures
        exists|now: int| 0 <= now <= TIMESTAMP_LIMIT && r == scheduled_occurrence(now, hour as int, minute as int),
{
    let now = utc_now();
    scheduled_occurrence_at(now.secs, hour, minute)
}

/// The scheduled occurrence is the latest moment at or before `now` that
/// falls on `hour:minute` UTC: it is not after `now`, less than a day before
/// it, and its time of day is `hour:minute:00`.
pub proof fn lemma_scheduled_occurrence(now: int, hour: int, minute: int)
    requires
        0 <= hour <= 23,
        0 <= minute <= 59,
    ensures
        scheduled_occurrence(now, hour, minute) <= now,
        now - scheduled_occurrence(now, hour, minute) < 86400,
        seconds_of_day(scheduled_occurrence(now, hour, minute)) == hour * 3600 + minute * 60,
{
    let sod = seconds_of_day(now);
    let off = hour * 3600 + minute * 60;
    let day_start = now - sod;
    vstd::arithmetic::div_mod::lemma_fundamental_div_mod(now, 86400);
    assert(day_start == 86400 * (now / 86400));
    let r = scheduled_occurrence(now, hour, minute);
    if now >= day_start + off {
        assert(r == (now / 86400) * 86400 + off);
        vstd::arithmetic::div_mod::lemma_mod_multiples_vanish(now / 86400, off, 86400);
        vstd::arithmetic::div_mod::lemma_small_mod(off as nat, 86400);
    } else {
        assert(r == (now / 86400 - 1) * 86400 + off);
        vstd::arithmetic::div_mod::lemma_mod_multiples_vanish(now / 86400 - 1, off, 86400);
        vstd::arithmetic::div_mod::lemma_small_mod(off as nat, 86400);
    }
}

/// The scheduled occurrence moves forward one day at a time: from `now` to
/// a later `t` it never goes back, and it moves on exactly when a full day
/// has passed since the occurrence at `now`.
pub proof fn lemma_occurrence_advances(now: int, t: int, hour: int, minute: int)
    requires
        0 <= hour <= 23,
        0 <= minute <= 59,
        now <= t,
    ensures
        scheduled_occurrence(t, hour, minute) >= scheduled_occurrence(now, hour, minute),
        scheduled_occurrence(t, hour, minute) > scheduled_occurrence(now, hour, minute)
            <==> t >= scheduled_occurrence(now, hour, minute) + 86400,
{
    let d = scheduled_occurrence(now, hour, minute);
    let e = scheduled_occurrence(t, hour, minute);
    lemma_scheduled_occurrence(now, hour, minute);
    lemma_scheduled_occurrence(t, hour, minute);
    vstd::arithmetic::div_mod::lemma_fundamental_div_mod(d, 86400);
    vstd::arithmetic::div_mod::lemma_fundamental_div_mod(e, 86400);
    let q = e / 86400 - d / 86400;
    assert(e - d == 86400 * q) by (nonlinear_arith)
        requires
            d == 86400 * (d / 86400) + d % 86400,
            e == 86400 * (e / 86400) + e % 86400,
            d % 86400 == e % 86400,
            q == e / 86400 - d / 86400,
    ;
    if t >= d + 86400 {
        assert(q >= 1) by (nonlinear_arith)
            requires
                e - d == 86400 * q,
                e - d > 0,
        ;
    } else {
        assert(q == 0) by (nonlinear_arith)
            requires
                e - d == 86400 * q,
                -86400 < e - d < 86400,
        ;
    }
}


/// The time zones the current time is shown in.
pub enum Zone {
    LosAngeles,
    NewYork,
    Utc,
    Japan,
}

/// What chrono and chrono-tz print for the instant `secs` + `nanos` in
/// `zone` with the format `"%A, %B %-d %Y  %I:%M:%S %p %Z"`.
pub uninterp spec fn zone_clock_text(secs: i64, nanos: u32, zone: Zone) -> Seq<char>;

/// The instant `now` as local time in `zone`, e.g.
/// `Monday, March 3 2025  09:15:00 AM PST`. The instant stays a day short of
/// chrono's last second, so that its local time in any zone (`naive_local`
/// panics past that second) exists.
#[verifier::external_body]
pub(crate) fn format_zone_clock(now: UtcInstant, zone: Zone) -> (r: String)
    requires
        0 <= now.secs <= CHRONO_MAX_SECS - 86400,
        now.wf(),
    ensures
        r@ == zone_clock_text(now.secs, now.nanos, zone),
{
    let tz: chrono_tz::Tz = match zone {
        Zone::LosAngeles => chrono_tz::America::Los_Angeles,
        Zone::NewYork => chrono_tz::America::New_York,
        Zone::Utc => chrono_tz::UTC,
        Zone::Japan => chrono_tz::Japan,
    };
    let utc = chrono::Utc.timestamp_opt(now.secs, now.nanos).unwrap();
    utc.with_timezone(&tz).format("%A, %B %-d %Y  %I:%M:%S %p %Z").to_string()
}

/// One zone's block of the time report: `**label**`, the local time, a blank line.
pub open spec fn zone_block(label: Seq<char>, now: UtcInstant, zone: Zone) -> Seq<char> {
    "**"@ + label + "**\n"@ + zone_clock_text(now.secs, now.nanos, zone) + "\n\n"@
}

/// The time report: Los Angeles, New York, UTC and Japan, without trailing
/// white space.
pub open spec fn time_report(now: UtcInstant) -> Seq<char> {
    crate::text::trim_end(
        zone_block("🇺🇸 Los Angeles"@, now, Zone::LosAngeles) + zone_block("🗽 New York"@, now, Zone::NewYork)
            + zone_block("🌐 UTC"@, now, Zone::Utc) + zone_block("🇯🇵 Japan"@, now, Zone::Japan),
    )
}

fn push_zone_block(out: &mut String, label: &str, now: UtcInstant, zone: Zone)
    requires
        0 <= now.secs <= CHRONO_MAX_SECS - 86400,
        now.wf(),
    ensures
        final(out)@ == old(out)@ + zone_block(label@, now, zone),
{
    let text = format_zone_clock(now, zone);
    out.append("**");
    out.append(label);
    out.append("**\n");
    out.append(text.as_str());
    out.append("\n\n");
}

/// The current time in several zones, as the time command shows it. Any
/// instant from the epoch up to a day before chrono's last second is accepted.
pub fn time_description(now: UtcInstant) -> (r: String)
    requires
        0 <= now.secs <= CHRONO_MAX_SECS - 86400,
        now.wf(),
    ensures
        r@ == time_report(now),
{
    let mut d = String::new();
    push_zone_block(&mut d, "🇺🇸 Los Angeles", now, Zone::LosAngeles);
    push_zone_block(&mut d, "🗽 New York", now, Zone::NewYork);
    push_zone_block(&mut d, "🌐 UTC", now, Zone::Utc);
    push_zone_block(&mut d, "🇯🇵 Japan", now, Zone::Japan);
    assert(d@ == zone_block("🇺🇸 Los Angeles"@, now, Zone::LosAngeles) + zone_block("🗽 New York"@, now, Zone::NewYork)
        + zone_block("🌐 UTC"@, now, Zone::Utc) + zone_block("🇯🇵 Japan"@, now, Zone::Japan));
    crate::text::trim_end_str(d.as_str())
}

} // verus!
