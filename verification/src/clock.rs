//! Instants of the UTC calendar, which the `chrono` crate reads and writes.

use vstd::prelude::*;

verus! {

/// The pattern of the time stamp in the name of a log file.
pub const FILE_STAMP: &'static str = "%Y%m%dT%H%M%S";

/// Whether an instant, in seconds since 1970 and the nanoseconds of the last
/// second, lies in the calendar of `chrono`: from the year -262143 to the year
/// 262142.
pub open spec fn in_calendar(secs: i64, nanos: u32) -> bool {
    -8_334_601_228_800 <= secs <= 8_210_266_876_799 && nanos < 1_000_000_000
}

/// What `DateTime<Utc>::to_rfc3339` writes for an instant.
pub uninterp spec fn rfc3339_text(secs: i64, nanos: u32) -> Seq<char>;

/// What `DateTime<Utc>::format` writes for an instant and a pattern.
pub uninterp spec fn formatted_text(secs: i64, nanos: u32, pattern: Seq<char>) -> Seq<char>;

/// Whether a text is made of digits, signs and the letter `T` alone.
pub open spec fn plain_stamp(s: Seq<char>) -> bool {
    forall|i: int|
        0 <= i < s.len() ==> {
            ||| crate::number::is_digit(#[trigger] s[i])
            ||| s[i] == '+'
            ||| s[i] == '-'
            ||| s[i] == 'T'
        }
}

/// `Utc::now`: the current instant, which lies in the calendar. The call gives
/// no instant, and panics, where the clock of the machine stands outside the
/// calendar or, on most platforms, before 1970.
#[verifier::external_body]
fn read_clock() -> (r: (i64, u32))
    ensures
        in_calendar(r.0, r.1),
{
    let now = chrono::Utc::now();
    (now.timestamp(), now.timestamp_subsec_nanos())
}

/// `DateTime<Utc>::to_rfc3339`, on the instant that `DateTime::from_timestamp`
/// makes of the numbers, which is one for every instant in the calendar.
#[verifier::external_body]
fn write_rfc3339(secs: i64, nanos: u32) -> (r: String)
    requires
        in_calendar(secs, nanos),
    ensures
        r@ == rfc3339_text(secs, nanos),
{
    chrono::DateTime::from_timestamp(secs, nanos).unwrap().to_rfc3339()
}

/// `DateTime<Utc>::format`, on the instant that `DateTime::from_timestamp`
/// makes of the numbers, which is one for every instant in the calendar. With
/// the pattern of file names it writes the year, which has a sign outside 0 to
/// 9999, the month and the day, a `T`, and the hour, the minute and the second.
#[verifier::external_body]
fn write_formatted(secs: i64, nanos: u32, pattern: &str) -> (r: String)
    requires
        in_calendar(secs, nanos),
        pattern@ == FILE_STAMP@,
    ensures
        r@ == formatted_text(secs, nanos, pattern@),
        plain_stamp(r@),
        r@.len() > 0,
{
    chrono::DateTime::from_timestamp(secs, nanos).unwrap().format(pattern).to_string()
}

/// An instant of the UTC calendar.
pub struct UtcInstant {
    secs: i64,
    nanos: u32,
}

impl UtcInstant {
    #[verifier::type_invariant]
    spec fn lies_in_calendar(self) -> bool {
        in_calendar(self.secs, self.nanos)
    }

    /// The seconds since 1970.
    pub closed spec fn secs(self) -> i64 {
        self.secs
    }

    /// The nanoseconds of the last second.
    pub closed spec fn nanos(self) -> u32 {
        self.nanos
    }

    /// The instant so many seconds after 1970 and so many nanoseconds after
    /// that, if it lies in the calendar.
    pub fn new(secs: i64, nanos: u32) -> (r: Option<UtcInstant>)
        ensures
            r is Some <==> in_calendar(secs, nanos),
            r matches Some(at) ==> at.secs() == secs && at.nanos() == nanos,
    {
        if -8_334_601_228_800 <= secs && secs <= 8_210_266_876_799 && nanos < 1_000_000_000 {
            Some(UtcInstant { secs, nanos })
        } else {
            None
        }
    }

    /// The current instant, which the clock of the machine decides.
    pub fn now() -> (r: UtcInstant)
        ensures
            in_calendar(r.secs(), r.nanos()),
    {
        let (secs, nanos) = read_clock();
        UtcInstant { secs, nanos }
    }

    /// The instant as RFC 3339 writes it.
    pub fn to_rfc3339(&self) -> (r: String)
        ensures
            r@ == rfc3339_text(self.secs(), self.nanos()),
    {
        proof {
            use_type_invariant(self);
        }
        write_rfc3339(self.secs, self.nanos)
    }

    /// The time stamp in the name of a log file that is written at the instant.
    pub fn file_stamp(&self) -> (r: String)
        ensures
            r@ == formatted_text(self.secs(), self.nanos(), FILE_STAMP@),
            plain_stamp(r@),
            r@.len() > 0,
    {
        proof {
            use_type_invariant(self);
        }
        write_formatted(self.secs, self.nanos, FILE_STAMP)
    }
}

// ---------------------------------------------------------------------------
// Laws
// ---------------------------------------------------------------------------


/// The calendar has every second from the first of the year -262143 to the last
/// of the year 262142, and a second has a thousand million nanoseconds.
pub proof fn the_calendar_has_no_gaps(secs: i64, nanos: u32)
    ensures
        in_calendar(secs, nanos) <==> -8_334_601_228_800 <= secs && secs <= 8_210_266_876_799
            && nanos <= 999_999_999,
{
}

/// A plain time stamp has nothing in it but digits, signs and the letter `T`.
pub proof fn plain_stamps_hold_plain_characters(s: Seq<char>)
    requires
        plain_stamp(s),
    ensures
        forall|i: int|
            0 <= i < s.len() ==> '0' <= s[i] && s[i] <= '9' || s[i] == '+' || s[i] == '-' || s[i]
                == 'T',
{
}

} // verus!
