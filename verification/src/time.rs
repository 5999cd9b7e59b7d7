//! Points in time, and their RFC 3339 text with whole seconds.

use vstd::prelude::*;

verus! {

/// Nanoseconds in a second. A count from here on up marks a leap second.
pub const SECOND: u32 = 1_000_000_000;

/// The instants that a date of the years -262143 to 262142 can name.
pub open spec fn valid_instant(secs: int, nanos: int) -> bool {
    &&& -8334601228800 <= secs <= 8210266876799
    &&& 0 <= nanos < 2 * SECOND
    &&& nanos >= SECOND ==> secs % 60 == 59
}

/// The instants of the years 0 to 9999.
pub open spec fn four_digit_year(secs: int) -> bool {
    -62167219200 <= secs <= 253402300799
}

/// What is left of the nanoseconds when only whole seconds are written: the
/// mark of a leap second.
pub open spec fn whole(nanos: int) -> int {
    if nanos >= SECOND {
        SECOND as int
    } else {
        0
    }
}

pub open spec fn is_time_char(c: char) -> bool {
    '0' <= c <= '9' || c == '-' || c == '+' || c == ':' || c == 'T' || c == 'Z'
}

/// A row of characters that can stand in RFC 3339 text, at least one.
pub open spec fn is_time_text(s: Seq<char>) -> bool {
    s.len() > 0 && forall|i: int| 0 <= i < s.len() ==> is_time_char(#[trigger] s[i])
}

/// RFC 3339 text of an instant in UTC, in whole seconds, with `Z`.
pub uninterp spec fn rfc3339_text(secs: int, nanos: int) -> Seq<char>;

/// The instant that a text names by RFC 3339, as seconds and nanoseconds.
pub uninterp spec fn rfc3339_instant(s: Seq<char>) -> Option<(int, int)>;

/// `chrono::DateTime::to_rfc3339_opts` with whole seconds and `Z`, on the
/// instant that `chrono::DateTime::from_timestamp` makes of the two numbers.
///
/// The text depends on the instant alone and is made of digits, signs, colons,
/// `T` and `Z`. In the years 0 to 9999 it reads back as the same second; a
/// later or earlier year is written with a sign, which does not read back.
#[verifier::external_body]
fn write_rfc3339(secs: i64, nanos: u32) -> (r: String)
    requires
        valid_instant(secs as int, nanos as int),
    ensures
        r@ == rfc3339_text(secs as int, nanos as int),
        is_time_text(r@),
        four_digit_year(secs as int) ==> rfc3339_instant(r@) == Some(
            (secs as int, whole(nanos as int)),
        ),
{
    chrono::DateTime::from_timestamp(secs, nanos).unwrap().to_rfc3339_opts(
        chrono::SecondsFormat::Secs,
        true,
    )
}

/// `chrono::DateTime::parse_from_rfc3339`, with the instant taken as seconds
/// and nanoseconds. Whether it reads, and what, depends on the text alone.
#[verifier::external_body]
fn read_rfc3339(s: &str) -> (r: Option<(i64, u32)>)
    ensures
        match r {
            Some((secs, nanos)) => rfc3339_instant(s@) == Some((secs as int, nanos as int))
                && valid_instant(secs as int, nanos as int),
            None => rfc3339_instant(s@) is None,
        },
{
    match chrono::DateTime::parse_from_rfc3339(s) {
        Ok(d) => Some((d.timestamp(), d.timestamp_subsec_nanos())),
        Err(_) => None,
    }
}

/// `chrono::Utc::now`: some instant that a date can name, never in a leap
/// second. Which one is up to the clock. A clock set before 1970 makes it panic.
#[verifier::external_body]
fn utc_now() -> (r: (i64, u32))
    ensures
        valid_instant(r.0 as int, r.1 as int),
        r.1 < SECOND,
{
    let d = chrono::Utc::now();
    (d.timestamp(), d.timestamp_subsec_nanos())
}

/// A point in time: seconds since 1970 in UTC, and nanoseconds.
#[derive(Clone, Copy, Debug, PartialEq, Eq, Structural)]
pub struct Timestamp {
    secs: i64,
    nanos: u32,
}

/// A point in time as numbers.
pub ghost struct Instant {
    pub secs: int,
    pub nanos: int,
}

impl Instant {
    pub open spec fn text(self) -> Seq<char> {
        rfc3339_text(self.secs, self.nanos)
    }

    /// The same second, without its fraction.
    pub open spec fn whole(self) -> Instant {
        Instant { secs: self.secs, nanos: whole(self.nanos) }
    }

    /// The instant reads back from its text.
    pub open spec fn reads_back(self) -> bool {
        is_time_text(self.text()) && read(self.text()) == Some(self.whole())
    }
}

/// What [`Timestamp::from_rfc3339`] reads from `s`.
pub open spec fn read(s: Seq<char>) -> Option<Instant> {
    match rfc3339_instant(s) {
        Some((secs, nanos)) => Some(Instant { secs, nanos }),
        None => None,
    }
}

impl DeepView for Timestamp {
    type V = Instant;

    closed spec fn deep_view(&self) -> Instant {
        Instant { secs: self.secs as int, nanos: self.nanos as int }
    }
}

impl Timestamp {
    #[verifier::type_invariant]
    spec fn in_range(self) -> bool {
        valid_instant(self.secs as int, self.nanos as int)
    }

    /// The instant with these numbers, where a date can name it.
    pub fn new(secs: i64, nanos: u32) -> (r: Option<Timestamp>)
        ensures
            r is Some == valid_instant(secs as int, nanos as int),
            r is Some ==> r->0.deep_view() == (Instant { secs: secs as int, nanos: nanos as int }),
    {
        let leap = nanos >= SECOND;
        let sixty: i64 = if secs >= 0 {
            secs % 60
        } else if secs > -8334601228801 {
            (secs + 8334601228860) % 60
        } else {
            0
        };
        if -8334601228800 <= secs && secs <= 8210266876799 && nanos < 2_000_000_000 && (!leap
            || sixty == 59) {
            Some(Timestamp { secs, nanos })
        } else {
            None
        }
    }

    pub fn secs(&self) -> (r: i64)
        ensures
            r == self.deep_view().secs,
    {
        self.secs
    }

    pub fn nanos(&self) -> (r: u32)
        ensures
            r == self.deep_view().nanos,
    {
        self.nanos
    }

    /// The current time, which is never in a leap second. Which instant comes
    /// back is up to the clock.
    pub fn now() -> (r: Timestamp)
        ensures
            valid_instant(r.deep_view().secs, r.deep_view().nanos),
            r.deep_view().nanos < SECOND,
    {
        let (secs, nanos) = utc_now();
        Timestamp { secs, nanos }
    }

    /// The text that the state file holds for this instant.
    pub fn to_rfc3339(&self) -> (r: String)
        ensures
            r@ == self.deep_view().text(),
            is_time_text(r@),
            four_digit_year(self.deep_view().secs) ==> self.deep_view().reads_back(),
    {
        proof {
            use_type_invariant(self);
        }
        write_rfc3339(self.secs, self.nanos)
    }

    /// The instant that a text names, if it is RFC 3339.
    pub fn from_rfc3339(s: &str) -> (r: Option<Timestamp>)
        ensures
            r.deep_view() == read(s@),
    {
        match read_rfc3339(s) {
            Some((secs, nanos)) => Some(Timestamp { secs, nanos }),
            None => None,
        }
    }
}

} // verus!
