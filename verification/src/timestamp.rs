//! Instants as plain numbers, and their sortable textual form.

use vstd::prelude::*;

verus! {

/// Whether `chrono` can represent the instant `secs` whole seconds and `nanos`
/// nanoseconds after the Unix epoch, as `DateTime::from_timestamp` decides it.
pub uninterp spec fn unix_time_representable(secs: i64, nanos: u32) -> bool;

/// The RFC 3339 text that `DateTime::<Utc>::to_rfc3339` writes for the
/// instant `secs` seconds and `nanos` nanoseconds after the Unix epoch.
pub uninterp spec fn rfc3339_text(secs: i64, nanos: u32) -> Seq<char>;

/// The instant that `DateTime::parse_from_rfc3339` reads from `text`, as
/// seconds and nanoseconds after the Unix epoch, or `None` where it rejects
/// the text.
pub uninterp spec fn rfc3339_instant(text: Seq<char>) -> Option<(i64, u32)>;

/// `DateTime::<Utc>::from_timestamp(secs, nanos)` answers `Some` exactly for
/// the instants that `chrono` can represent; the result reports whether it
/// did.
#[verifier::external_body]
fn chrono_accepts(secs: i64, nanos: u32) -> (ok: bool)
    ensures
        ok == unix_time_representable(secs, nanos),
{
    chrono::DateTime::from_timestamp(secs, nanos).is_some()
}

/// `DateTime::<Utc>::to_rfc3339`, on the date and time that
/// `DateTime::from_timestamp` makes of a representable instant. The text
/// depends on the instant alone, and writing it never fails. For an instant
/// that is not representable, which the contract leaves out, the text is
/// empty.
#[verifier::external_body]
fn chrono_to_rfc3339(secs: i64, nanos: u32) -> (text: String)
    requires
        unix_time_representable(secs, nanos),
    ensures
        text@ == rfc3339_text(secs, nanos),
{
    match chrono::DateTime::from_timestamp(secs, nanos) {
        Some(at) => at.to_rfc3339(),
        None => String::new(),
    }
}

/// `DateTime::parse_from_rfc3339`, with the date and time brought to UTC and
/// taken apart by `timestamp` and `timestamp_subsec_nanos`. The outcome
/// depends on the text alone. `from_timestamp` is documented to give every
/// date and time back from these two numbers, so what was read is
/// representable.
#[verifier::external_body]
fn chrono_parse_rfc3339(text: &str) -> (r: Option<(i64, u32)>)
    ensures
        r == rfc3339_instant(text@),
        r matches Some(at) ==> unix_time_representable(at.0, at.1),
{
    match chrono::DateTime::parse_from_rfc3339(text) {
        Ok(at) => {
            let utc = at.with_timezone(&chrono::Utc);
            Some((utc.timestamp(), utc.timestamp_subsec_nanos()))
        },
        Err(_) => None,
    }
}

/// `SystemTime::now`, measured from the Unix epoch by
/// `SystemTime::duration_since` and taken apart by `Duration::as_secs` and
/// `Duration::subsec_nanos`. A clock that stands before the epoch gives an
/// error, which is handed on as `None`. Nothing is known of the reading but
/// that its second part, a fraction of a second, is under one billion
/// nanoseconds.
#[verifier::external_body]
fn clock_since_epoch() -> (r: Option<(u64, u32)>)
    ensures
        r matches Some(reading) ==> reading.1 < 1_000_000_000,
{
    match std::time::SystemTime::now().duration_since(std::time::UNIX_EPOCH) {
        Ok(elapsed) => Some((elapsed.as_secs(), elapsed.subsec_nanos())),
        Err(_) => None,
    }
}

/// An instant in UTC: whole seconds since the Unix epoch and the nanoseconds
/// since the last whole second. Every value is one that `chrono` represents.
#[derive(Clone, Copy, Debug, PartialEq, Eq, Structural)]
pub struct Timestamp {
    secs: i64,
    nanos: u32,
}

impl Timestamp {
    #[verifier::type_invariant]
    spec fn representable(self) -> bool {
        unix_time_representable(self.secs, self.nanos)
    }

    /// Whole seconds since the Unix epoch.
    pub closed spec fn spec_unix_seconds(&self) -> i64 {
        self.secs
    }

    /// Nanoseconds since the last whole second.
    pub closed spec fn spec_subsec_nanos(&self) -> u32 {
        self.nanos
    }

    /// The RFC 3339 text of the instant.
    pub open spec fn text(self) -> Seq<char> {
        rfc3339_text(self.spec_unix_seconds(), self.spec_subsec_nanos())
    }

    /// An instant is determined by its two numbers.
    pub proof fn lemma_same_numbers(self, other: Timestamp)
        requires
            self.spec_unix_seconds() == other.spec_unix_seconds(),
            self.spec_subsec_nanos() == other.spec_subsec_nanos(),
        ensures
            self == other,
    {
    }

    /// The instant `secs` seconds and `nanos` nanoseconds after the Unix
    /// epoch, where it can be represented.
    pub fn from_unix(secs: i64, nanos: u32) -> (r: Option<Timestamp>)
        ensures
            r is Some <==> unix_time_representable(secs, nanos),
            r matches Some(at) ==> at.spec_unix_seconds() == secs && at.spec_subsec_nanos()
                == nanos,
    {
        if chrono_accepts(secs, nanos) {
            Some(Timestamp { secs, nanos })
        } else {
            None
        }
    }

    /// The instant that a reading of the clock stands for: so many whole
    /// seconds and nanoseconds after the Unix epoch. There is none without a
    /// reading, nor for a reading that cannot be represented.
    pub open spec fn of_clock(reading: Option<(u64, u32)>) -> Option<(i64, u32)> {
        match reading {
            Some((secs, nanos)) => if secs <= i64::MAX && unix_time_representable(
                secs as i64,
                nanos,
            ) {
                Some((secs as i64, nanos))
            } else {
                None
            },
            None => None,
        }
    }

    /// The instant that a reading of the clock stands for: see
    /// [`Timestamp::of_clock`].
    pub fn from_clock(reading: Option<(u64, u32)>) -> (r: Option<Timestamp>)
        ensures
            match Timestamp::of_clock(reading) {
                Some(at) => r matches Some(t) && t.spec_unix_seconds() == at.0
                    && t.spec_subsec_nanos() == at.1,
                None => r is None,
            },
    {
        match reading {
            Some((secs, nanos)) => if secs <= 0x7fff_ffff_ffff_ffff {
                Timestamp::from_unix(secs as i64, nanos)
            } else {
                None
            },
            None => None,
        }
    }

    /// The present instant, as the clock of the machine tells it, or `None`
    /// where the clock gives no instant that can be represented: one that
    /// stands before the Unix epoch, or too far after it. Which instant it is
    /// cannot be known beforehand; whatever the clock says, it is one that
    /// `chrono` represents, so that it can be written as text.
    pub fn now() -> (r: Option<Timestamp>)
        ensures
            r matches Some(at) ==> unix_time_representable(
                at.spec_unix_seconds(),
                at.spec_subsec_nanos(),
            ),
    {
        Timestamp::from_clock(clock_since_epoch())
    }

    /// Whole seconds since the Unix epoch.
    #[verifier::when_used_as_spec(spec_unix_seconds)]
    pub fn unix_seconds(&self) -> (secs: i64)
        ensures
            secs == self.spec_unix_seconds(),
    {
        self.secs
    }

    /// Nanoseconds since the last whole second.
    #[verifier::when_used_as_spec(spec_subsec_nanos)]
    pub fn subsec_nanos(&self) -> (nanos: u32)
        ensures
            nanos == self.spec_subsec_nanos(),
    {
        self.nanos
    }

    /// The instant as RFC 3339 text.
    pub fn to_rfc3339(&self) -> (text: String)
        ensures
            text@ == self.text(),
    {
        proof {
            use_type_invariant(self);
        }
        chrono_to_rfc3339(self.secs, self.nanos)
    }

    /// Reads an instant from RFC 3339 text; `None` where the text is not a
    /// date and time in that form.
    pub fn parse_rfc3339(text: &str) -> (r: Option<Timestamp>)
        ensures
            match rfc3339_instant(text@) {
                Some(at) => r matches Some(t) && t.spec_unix_seconds() == at.0
                    && t.spec_subsec_nanos() == at.1,
                None => r is None,
            },
    {
        match chrono_parse_rfc3339(text) {
            Some((secs, nanos)) => Some(Timestamp { secs, nanos }),
            None => None,
        }
    }
}

} // verus!
