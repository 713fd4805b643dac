//! Instants, their RFC 3339 form, and the local time zone.

use crate::text;
use crate::text::decimal_text;
use chrono::{DateTime, FixedOffset, Local, Offset, TimeZone, Utc};
use std::collections::HashMap;
use vstd::prelude::*;
use vstd::string::*;

verus! {

broadcast use vstd::std_specs::hash::group_hash_axioms;

// ---------------------------------------------------------------------------
// Instants
// ---------------------------------------------------------------------------

/// A point in time: the non-leap seconds since the Unix epoch, and the nanoseconds behind the last
/// of them. During a leap second `nanos` counts on from a thousand million.
#[derive(Clone, Copy, Debug, PartialEq, Eq, Structural)]
pub struct Instant {
    pub secs: i64,
    pub nanos: u32,
}

impl DeepView for Instant {
    type V = Instant;

    open spec fn deep_view(&self) -> Instant {
        *self
    }
}

impl Instant {
    /// Whether the instant is one that a date and time with a four-digit year and a numeric zone
    /// can name.
    pub open spec fn in_calendar(self) -> bool {
        &&& -62_167_305_540 <= self.secs <= 253_402_387_139
        &&& self.nanos < 2_000_000_000
        &&& self.nanos >= 1_000_000_000 ==> self.secs as int % 60 == 59
    }

    /// Whether `self` is `other` or earlier.
    pub open spec fn leq(self, other: Instant) -> bool {
        self.secs < other.secs || (self.secs == other.secs && self.nanos <= other.nanos)
    }

    /// Whether `self` comes before `other`.
    pub fn is_before(&self, other: &Instant) -> (answer: bool)
        ensures
            answer == !other.leq(*self),
    {
        self.secs < other.secs || (self.secs == other.secs && self.nanos < other.nanos)
    }
}

/// The leap second that lies between two times of day of which one is a leap second itself.
pub open spec fn leap_between(later: Instant, earlier: Instant) -> int {
    let later_of_day = later.secs as int % 86_400;
    let earlier_of_day = earlier.secs as int % 86_400;
    if later_of_day > earlier_of_day && earlier.nanos >= 1_000_000_000 {
        1
    } else if later_of_day < earlier_of_day && later.nanos >= 1_000_000_000 {
        -1
    } else {
        0
    }
}

/// The nanoseconds from `earlier` to `later`. No leap second is counted but one that an argument
/// itself lies in.
pub open spec fn nanos_between(later: Instant, earlier: Instant) -> int {
    (later.secs - earlier.secs + leap_between(later, earlier)) * 1_000_000_000 + later.nanos
        - earlier.nanos
}

/// The time from an instant to a later one is negative only where one of the two lies in a leap
/// second, and then by less than a second.
pub proof fn time_runs_forward(later: Instant, earlier: Instant)
    requires
        later.in_calendar(),
        earlier.in_calendar(),
        earlier.leq(later),
    ensures
        nanos_between(later, earlier) > -1_000_000_000,
        earlier.nanos < 1_000_000_000 && later.nanos < 1_000_000_000 ==> nanos_between(
            later,
            earlier,
        ) >= 0,
{
}

/// Calls chrono's `DateTime::signed_duration_since` and hands out its whole seconds and the
/// nanoseconds behind them. The contract states the difference in nanoseconds, and that the two
/// parts have one sign. Both arguments are instants that chrono can represent.
#[verifier::external_body]
fn duration_since(later: Instant, earlier: Instant) -> (parts: (i64, i32))
    requires
        later.in_calendar(),
        earlier.in_calendar(),
    ensures
        parts.0 * 1_000_000_000 + parts.1 == nanos_between(later, earlier),
        -1_000_000_000 < parts.1 < 1_000_000_000,
        parts.0 > 0 ==> parts.1 >= 0,
        parts.0 < 0 ==> parts.1 <= 0,
{
    let to: DateTime<Utc> = DateTime::from_timestamp(later.secs, later.nanos).unwrap();
    let from: DateTime<Utc> = DateTime::from_timestamp(earlier.secs, earlier.nanos).unwrap();
    let span = to.signed_duration_since(from);
    (span.num_seconds(), span.subsec_nanos())
}

/// The nanoseconds from `earlier` to `later`.
pub fn nanos_since(later: Instant, earlier: Instant) -> (nanos: i128)
    requires
        later.in_calendar(),
        earlier.in_calendar(),
    ensures
        nanos == nanos_between(later, earlier),
{
    let (secs, nanos): (i64, i32) = duration_since(later, earlier);
    secs as i128 * 1_000_000_000 + nanos as i128
}

// ---------------------------------------------------------------------------
// RFC 3339
// ---------------------------------------------------------------------------

/// The instant that `DateTime::parse_from_rfc3339` reads out of a text.
pub uninterp spec fn rfc3339_instant(text: Seq<char>) -> Option<Instant>;

/// Calls chrono's `DateTime::parse_from_rfc3339`. The contract names the result, and says that
/// the instant is in the calendar: the grammar has four digits for the year, a zone of less than a
/// day in whole minutes, and leap seconds only at the end of a minute.
#[verifier::external_body]
pub(crate) fn parse_rfc3339(text: &str) -> (instant: Option<Instant>)
    ensures
        instant == rfc3339_instant(text@),
        instant matches Some(t) ==> t.in_calendar(),
{
    match DateTime::parse_from_rfc3339(text) {
        Ok(t) => Some(Instant { secs: t.timestamp(), nanos: t.timestamp_subsec_nanos() }),
        Err(_) => None,
    }
}

/// Whether the UTC time with this timestamp lies in the years 0 to 9999.
pub open spec fn has_four_digit_year(secs: i64) -> bool {
    -62_167_219_200 <= secs <= 253_402_300_799
}

/// Whether there is a UTC time with this timestamp: it lies in the years -262143 to 262142, the
/// ones that chrono has dates for, and runs past a second only in the last second of a minute.
pub open spec fn has_utc_time(secs: i64, nanos: u32) -> bool {
    &&& -8_334_601_228_800 <= secs <= 8_210_266_876_799
    &&& nanos < 2_000_000_000
    &&& nanos >= 1_000_000_000 ==> secs as int % 60 == 59
}

/// The RFC 3339 form that `DateTime::to_rfc3339` gives the UTC time with this timestamp; `None`
/// where `DateTime::from_timestamp` knows no such time.
pub uninterp spec fn rfc3339_text(secs: i64, nanos: u32) -> Option<Seq<char>>;

/// Whether `text` stands in dictionary order before the RFC 3339 forms of all later times in the
/// years 0 to 9999.
pub open spec fn precedes_later_times(text: Seq<char>, secs: i64, nanos: u32) -> bool {
    forall|later_secs: i64, later_nanos: u32|
        #![trigger rfc3339_text(later_secs, later_nanos)]
        has_four_digit_year(later_secs) && is_later(later_secs, later_nanos, secs, nanos) ==> (
        rfc3339_text(later_secs, later_nanos) matches Some(later) ==> text::text_leq(text, later)
            && text != later)
}

/// Whether the first timestamp is later than the second.
pub open spec fn is_later(later_secs: i64, later_nanos: u32, secs: i64, nanos: u32) -> bool {
    secs < later_secs || (secs == later_secs && nanos < later_nanos)
}

/// Whether `text` is the RFC 3339 form of some UTC time.
pub open spec fn is_written_time(text: Seq<char>) -> bool {
    exists|secs: i64, nanos: u32| #[trigger] rfc3339_text(secs, nanos) == Some(text)
}

/// Calls chrono's `DateTime::from_timestamp` and `DateTime::to_rfc3339`. The contract names the
/// result, says for which timestamps there is one, and that it ends in the zone `+00:00`. For the
/// years with four digits it says that `DateTime::parse_from_rfc3339` reads the result back, which
/// has all of the nanoseconds, and that it stands before the results for later times: the parts of
/// a time come from the greatest to the smallest with fixed widths, a fraction has three, six or
/// nine digits, and the `+` behind it stands before the full stop and before all digits.
#[verifier::external_body]
pub(crate) fn to_rfc3339(secs: i64, nanos: u32) -> (text: Option<String>)
    ensures
        text.deep_view() == rfc3339_text(secs, nanos),
        text is Some <==> has_utc_time(secs, nanos),
        text matches Some(t) ==> text::ends_with(t@, "+00:00"@),
        text matches Some(t) ==> (has_four_digit_year(secs) ==> rfc3339_instant(t@) == Some(
            (Instant { secs: secs, nanos: nanos }),
        )),
        text matches Some(t) ==> (has_four_digit_year(secs) ==> precedes_later_times(
            t@,
            secs,
            nanos,
        )),
{
    let time: Option<DateTime<Utc>> = DateTime::from_timestamp(secs, nanos);
    time.map(|t| t.to_rfc3339())
}

/// Calls chrono's `Utc::now` and `DateTime::to_rfc3339`. The contract says that the result is the
/// form of a UTC time; which one is not stated, for it is the time of the call.
#[verifier::external_body]
pub(crate) fn now_rfc3339() -> (text: String)
    ensures
        is_written_time(text@),
{
    Utc::now().to_rfc3339()
}

/// Whether `text` is the time of a call of [`now_rfc3339`], as that function gives it.
pub closed spec fn is_reading_of_clock(text: Seq<char>) -> bool {
    exists|reading: String| #[trigger] call_ensures(now_rfc3339, (), reading) && reading@ == text
}

/// Reads the clock of the machine.
pub(crate) fn read_clock() -> (text: String)
    ensures
        is_written_time(text@),
        is_reading_of_clock(text@),
{
    now_rfc3339()
}

// ---------------------------------------------------------------------------
// Local time
// ---------------------------------------------------------------------------

/// Whether a zone can be that many seconds ahead of UTC.
pub open spec fn is_offset(offset: int) -> bool {
    -86_400 < offset < 86_400
}

/// How many seconds local time is ahead of UTC, by the second. Where the table has no entry, local
/// time is UTC.
pub struct LocalOffsets {
    by_second: HashMap<i64, i32>,
}

impl View for LocalOffsets {
    type V = Map<i64, i32>;

    closed spec fn view(&self) -> Map<i64, i32> {
        self.by_second@
    }
}

/// The offset from UTC at the second `secs`.
pub open spec fn offset_at(offsets: Map<i64, i32>, secs: i64) -> i32 {
    if offsets.contains_key(secs) {
        offsets[secs]
    } else {
        0
    }
}

/// Whether all offsets of the table are ones that a zone can have.
pub open spec fn are_offsets(offsets: Map<i64, i32>) -> bool {
    forall|secs: i64| #[trigger] offsets.contains_key(secs) ==> is_offset(offsets[secs] as int)
}

impl LocalOffsets {
    /// The table without entries.
    pub fn new() -> (offsets: LocalOffsets)
        ensures
            offsets@ == Map::<i64, i32>::empty(),
    {
        LocalOffsets { by_second: HashMap::new() }
    }

    /// Enters the offset at the second `secs`.
    pub fn set(&mut self, secs: i64, offset: i32)
        requires
            are_offsets(old(self)@),
            is_offset(offset as int),
        ensures
            final(self)@ == old(self)@.insert(secs, offset),
            are_offsets(final(self)@),
    {
        self.by_second.insert(secs, offset);
    }

    /// The offset at the second `secs`.
    pub fn at(&self, secs: i64) -> (offset: i32)
        ensures
            offset == offset_at(self@, secs),
    {
        match self.by_second.get(&secs) {
            Some(offset) => *offset,
            None => 0,
        }
    }
}

/// Calls chrono's `Local.offset_from_utc_datetime`. The offset is that of the machine's time zone;
/// the contract says no more than that it is less than a day either way.
#[verifier::external_body]
pub(crate) fn machine_offset(at: Instant) -> (offset: i32)
    requires
        at.in_calendar(),
    ensures
        is_offset(offset as int),
{
    let time: DateTime<Utc> = DateTime::from_timestamp(at.secs, at.nanos).unwrap();
    Local.offset_from_utc_datetime(&time.naive_utc()).fix().local_minus_utc()
}

/// Whether `offset` is an answer of the machine for an instant in the second `secs`: one that a call
/// of [`machine_offset`] can have. No more is known of it than the contract of that function says.
pub closed spec fn is_machine_offset(secs: i64, offset: i32) -> bool {
    exists|at: Instant| at.secs == secs && #[trigger] call_ensures(machine_offset, (at,), offset)
}

/// Asks the machine for its offset at the instant `at`.
pub(crate) fn ask_machine(at: Instant) -> (offset: i32)
    requires
        at.in_calendar(),
    ensures
        is_offset(offset as int),
        is_machine_offset(at.secs, offset),
{
    machine_offset(at)
}

/// Whether all offsets of the table are answers of the machine.
pub open spec fn are_machine_offsets(offsets: Map<i64, i32>) -> bool {
    forall|secs: i64| #[trigger]
        offsets.contains_key(secs) ==> is_machine_offset(secs, offsets[secs])
}

/// The text that chrono's `DateTime::format` gives for the time `offset` seconds ahead of UTC at
/// this timestamp.
pub uninterp spec fn formatted(secs: i64, nanos: u32, offset: i32, pattern: Seq<char>) -> Seq<char>;

/// The pattern of local times: date, time and zone, to the second.
pub const LOCAL_TIME_PATTERN: &'static str = "%Y-%m-%dT%H:%M:%S%:z";

/// Whether the local time of `at` can be read back from its form to the second: the zone is a whole
/// number of minutes ahead of UTC, the local year has four digits, and the instant lies in no leap
/// second.
pub open spec fn is_readable_local(at: Instant, offset: i32) -> bool {
    &&& at.nanos < 1_000_000_000
    &&& offset as int % 60 == 0
    &&& -62_167_219_200 <= at.secs + offset <= 253_402_300_799
}

/// The start of the second in which `at` lies.
pub open spec fn start_of_second(at: Instant) -> Instant {
    Instant { secs: at.secs, nanos: 0 }
}

/// Calls chrono's `DateTime::with_timezone` with a `FixedOffset`, and `DateTime::format`. The
/// contract names the result, and says that `DateTime::parse_from_rfc3339` reads it back to the
/// second where the zone has whole minutes and the local year four digits: the pattern is then that
/// of RFC 3339 without a fraction.
#[verifier::external_body]
fn format_time(at: Instant, offset: i32, pattern: &str) -> (text: String)
    requires
        at.in_calendar(),
        is_offset(offset as int),
        pattern@ == LOCAL_TIME_PATTERN@,
    ensures
        text@ == formatted(at.secs, at.nanos, offset, pattern@),
        is_readable_local(at, offset) ==> rfc3339_instant(text@) == Some(start_of_second(at)),
{
    let time: DateTime<Utc> = DateTime::from_timestamp(at.secs, at.nanos).unwrap();
    let zone: FixedOffset = FixedOffset::east_opt(offset).unwrap();
    time.with_timezone(&zone).format(pattern).to_string()
}

/// The local date and time of an instant.
pub open spec fn local_time(at: Instant, offsets: Map<i64, i32>) -> Seq<char> {
    formatted(at.secs, at.nanos, offset_at(offsets, at.secs), LOCAL_TIME_PATTERN@)
}

/// Writes the local date and time of `at`, to the second, with its zone.
pub fn format_local_time(at: &Instant, offsets: &LocalOffsets) -> (text: String)
    requires
        at.in_calendar(),
        are_offsets(offsets@),
    ensures
        text@ == local_time(*at, offsets@),
        is_readable_local(*at, offset_at(offsets@, at.secs)) ==> rfc3339_instant(text@) == Some(
            start_of_second(*at),
        ),
{
    format_time(*at, offsets.at(at.secs), LOCAL_TIME_PATTERN)
}

/// The hour of the day, `offset` seconds ahead of UTC.
pub open spec fn hour_of_day(secs: int, offset: int) -> nat {
    ((secs + offset) % 86_400 / 3_600) as nat
}

/// `n` in decimal with at least two digits.
pub open spec fn two_digits(n: nat) -> Seq<char> {
    if n < 10 {
        "0"@ + text::decimal(n)
    } else {
        text::decimal(n)
    }
}

/// The local hour of a timestamp, as two digits; `None` where it is no RFC 3339 time.
pub open spec fn local_hour(timestamp: Seq<char>, offsets: Map<i64, i32>) -> Option<Seq<char>> {
    match rfc3339_instant(timestamp) {
        Some(t) => Some(two_digits(hour_of_day(t.secs as int, offset_at(offsets, t.secs) as int))),
        None => None,
    }
}

/// The hour of the day at the second `secs`, `offset` seconds ahead of UTC, as two digits.
pub fn hour_text(secs: i64, offset: i32) -> (hour: String)
    requires
        i64::MIN <= secs + offset <= i64::MAX,
    ensures
        hour@ == two_digits(hour_of_day(secs as int, offset as int)),
{
    let of_day: i64 = match (secs + offset as i64).checked_rem_euclid(86_400) {
        Some(rest) => rest,
        None => 0,
    };
    let hour: u64 = (of_day / 3_600) as u64;
    let digits: String = decimal_text(hour);
    if hour < 10 {
        let mut padded: String = "0".to_owned();
        padded.append(digits.as_str());
        padded
    } else {
        digits
    }
}

/// The local hour of `timestamp`, as two digits.
pub fn extract_local_hour(timestamp: &str, offsets: &LocalOffsets) -> (hour: Option<String>)
    requires
        are_offsets(offsets@),
    ensures
        hour.deep_view() == local_hour(timestamp@, offsets@),
{
    match parse_rfc3339(timestamp) {
        Some(t) => Some(hour_text(t.secs, offsets.at(t.secs))),
        None => None,
    }
}

// ---------------------------------------------------------------------------
// Laws
// ---------------------------------------------------------------------------

/// An instant is at or before another where it lies in an earlier second, or in the same second and
/// no later in it.
pub proof fn instants_stand_by_time(a: Instant, b: Instant)
    ensures
        a.secs < b.secs ==> a.leq(b) && !b.leq(a),
        a.secs == b.secs ==> (a.leq(b) <==> a.nanos <= b.nanos),
        a.leq(b) && b.leq(a) <==> a == b,
{
}

/// The time between instants outside of leap seconds is the difference of the nanoseconds that they
/// count since the epoch.
pub proof fn time_is_counted_in_nanoseconds(later: Instant, earlier: Instant)
    requires
        later.nanos < 1_000_000_000,
        earlier.nanos < 1_000_000_000,
    ensures
        nanos_between(later, earlier) == (later.secs * 1_000_000_000 + later.nanos) - (earlier.secs
            * 1_000_000_000 + earlier.nanos),
{
}

/// The local hour of a timestamp: where the local clock, which is as many seconds ahead of UTC as the
/// table says for the second that the timestamp names, has passed `hour` hours and less than one more
/// since local midnight, the hour is `hour` with two digits. Where the table says nothing, the local
/// clock shows UTC, and a timestamp that names no time has no hour.
pub proof fn hours_are_those_of_the_local_clock(
    timestamp: Seq<char>,
    offsets: Map<i64, i32>,
    day: int,
    hour: int,
)
    ensures
        local_hour(timestamp, offsets) is Some <==> rfc3339_instant(timestamp) is Some,
        rfc3339_instant(timestamp) matches Some(t) ==> {
            let clock = t.secs + if offsets.contains_key(t.secs) {
                offsets[t.secs] as int
            } else {
                0
            };
            0 <= hour < 24 && day * 86_400 + hour * 3_600 <= clock < day * 86_400 + (hour + 1)
                * 3_600 ==> (local_hour(timestamp, offsets) matches Some(digits) && digits.len() == 2
                && digits[0] as int == '0' as int + hour / 10 && digits[1] as int == '0' as int
                + hour % 10)
        },
{
    if let Some(t) = rfc3339_instant(timestamp) {
        let clock = t.secs + if offsets.contains_key(t.secs) {
            offsets[t.secs] as int
        } else {
            0
        };
        if 0 <= hour < 24 && day * 86_400 + hour * 3_600 <= clock < day * 86_400 + (hour + 1) * 3_600 {
            assert(clock % 86_400 == clock - day * 86_400);
            assert(hour_of_day(t.secs as int, offset_at(offsets, t.secs) as int) == hour);
            reveal_strlit("0");
            reveal_with_fuel(text::decimal, 2);
            assert(text::decimal(hour as nat).len() == if hour < 10 {
                1nat
            } else {
                2
            });
        }
    }
}

/// The hour that is written for a second and an offset is that of the clock which is so many seconds
/// ahead of UTC.
pub proof fn hours_are_counted_from_midnight(secs: int, offset: int, day: int, hour: int)
    requires
        0 <= hour < 24,
        day * 86_400 + hour * 3_600 <= secs + offset < day * 86_400 + (hour + 1) * 3_600,
    ensures
        hour_of_day(secs, offset) == hour,
{
    assert((secs + offset) % 86_400 == secs + offset - day * 86_400);
}

/// A local time is the instant's, in the zone that the table has for its second, written with date,
/// time and zone.
pub proof fn local_times_are_in_the_zone_of_the_table(at: Instant, offsets: Map<i64, i32>)
    ensures
        offsets.contains_key(at.secs) ==> local_time(at, offsets) == formatted(
            at.secs,
            at.nanos,
            offsets[at.secs],
            "%Y-%m-%dT%H:%M:%S%:z"@,
        ),
        !offsets.contains_key(at.secs) ==> local_time(at, offsets) == formatted(
            at.secs,
            at.nanos,
            0,
            "%Y-%m-%dT%H:%M:%S%:z"@,
        ),
{
}

/// What the machine says of its zone is less than a day.
pub proof fn machine_offsets_are_offsets(secs: i64, offset: i32)
    requires
        is_machine_offset(secs, offset),
    ensures
        -86_400 < offset < 86_400,
{
    let at = choose|at: Instant| at.secs == secs && #[trigger] call_ensures(
        machine_offset,
        (at,),
        offset,
    );
}

/// What the machine says of the time is a time in its written form.
pub proof fn readings_of_the_clock_are_times(text: Seq<char>)
    requires
        is_reading_of_clock(text),
    ensures
        is_written_time(text),
{
}

/// What a call of [`machine_offset`] gives is an answer of the machine for the second that was asked
/// for, as it is, and nothing else is one.
pub(crate) proof fn answers_of_the_machine_are_taken_as_they_are(at: Instant, offset: i32)
    ensures
        call_ensures(machine_offset, (at,), offset) ==> is_machine_offset(at.secs, offset),
        is_machine_offset(at.secs, offset) ==> exists|asked: Instant|
            asked.secs == at.secs && #[trigger] call_ensures(machine_offset, (asked,), offset),
{
}

/// What a call of [`now_rfc3339`] gives is a reading of the clock, as it is, and nothing else is one.
pub(crate) proof fn readings_of_the_clock_are_taken_as_they_are(reading: String)
    ensures
        call_ensures(now_rfc3339, (), reading) ==> is_reading_of_clock(reading@),
        is_reading_of_clock(reading@) ==> exists|other: String| #[trigger]
            call_ensures(now_rfc3339, (), other) && other@ == reading@,
{
}

} // verus!
