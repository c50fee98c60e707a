//! A stopwatch readout: a span of time held as hours, minutes, seconds and
//! milliseconds.
use vstd::prelude::*;
use std::time::Duration;
use vstd::std_specs::ops::{AddSpec, SubSpec};
use crate::decimal::{zero_padded, push_zero_padded};

verus! {

/// Milliseconds in one hour.
pub const MILLISECONDS_PER_HOUR: u128 = 3_600_000;

/// Milliseconds in one minute.
pub const MILLISECONDS_PER_MINUTE: u128 = 60_000;

/// Milliseconds in one second.
pub const MILLISECONDS_PER_SECOND: u128 = 1000;

/// The fields of a readout: `(hours, minutes, seconds, milliseconds)`.
pub type ReadoutParts = (u128, u128, u128, u128);

/// The span, in milliseconds, that the fields `v` stand for.
pub open spec fn millis_of(v: ReadoutParts) -> nat {
    v.0 as nat * 3_600_000 + v.1 as nat * 60_000 + v.2 as nat * 1000 + v.3 as nat
}

/// The fields of `m` milliseconds: whole hours, then the minutes, seconds
/// and milliseconds that are left.
pub open spec fn split_millis(m: nat) -> ReadoutParts {
    (
        (m / 3_600_000) as u128,
        (m / 60_000 % 60) as u128,
        (m / 1000 % 60) as u128,
        (m % 1000) as u128,
    )
}

/// Whether the fields are in their usual ranges: under 60 minutes, under 60
/// seconds, under 1000 milliseconds.
pub open spec fn is_normalized(v: ReadoutParts) -> bool {
    v.1 < 60 && v.2 < 60 && v.3 < 1000
}

/// Milliseconds of a `Duration`, as `Duration::as_millis` gives them.
pub uninterp spec fn duration_millis(d: Duration) -> u128;

/// `Duration::as_millis`: the number of whole milliseconds in `d`, named by
/// [`duration_millis`] since a `Duration` is opaque here.
#[verifier::external_body]
fn duration_as_millis(d: Duration) -> (ms: u128)
    ensures
        ms == duration_millis(d),
{
    d.as_millis()
}

/// A span of time as hours, minutes, seconds and milliseconds.
#[derive(Debug, Clone, Copy)]
pub struct StopWatchReadout {
    hours: u128,
    minutes: u128,
    seconds: u128,
    milliseconds: u128,
}

impl View for StopWatchReadout {
    type V = ReadoutParts;

    closed spec fn view(&self) -> ReadoutParts {
        (self.hours, self.minutes, self.seconds, self.milliseconds)
    }
}

/// The readout whose fields are `v`.
pub closed spec fn readout_from_parts(v: ReadoutParts) -> StopWatchReadout {
    StopWatchReadout { hours: v.0, minutes: v.1, seconds: v.2, milliseconds: v.3 }
}

/// The readout made from fields has those fields.
pub proof fn lemma_readout_from_parts(v: ReadoutParts)
    ensures
        readout_from_parts(v)@ == v,
{
}

/// Two readouts with the same fields are the same readout.
pub proof fn lemma_readout_view_injective(a: StopWatchReadout, b: StopWatchReadout)
    requires
        a@ == b@,
    ensures
        a == b,
{
}

/// The fields of `m` milliseconds are normalized and stand for `m`.
pub proof fn lemma_split_millis(m: nat)
    requires
        m <= u128::MAX,
    ensures
        is_normalized(split_millis(m)),
        millis_of(split_millis(m)) == m,
{
    let h = m / 3_600_000;
    let r = m % 3_600_000;
    assert(m == 3_600_000 * h + r);
    assert(m / 60_000 == 60 * h + r / 60_000);
    assert(r / 60_000 < 60);
    assert(m / 60_000 % 60 == r / 60_000);
    let r2 = m % 60_000;
    assert(m == 60_000 * (m / 60_000) + r2);
    assert(m / 1000 == 60 * (m / 60_000) + r2 / 1000);
    assert(m / 1000 % 60 == r2 / 1000);
    assert(r2 == 1000 * (r2 / 1000) + m % 1000);
    assert(r == 60_000 * (r / 60_000) + r2);
    assert(r % 60_000 == r2);
    assert(r2 / 1000 < 60);
    let v = split_millis(m);
    assert(v.0 as nat == h);
    assert(v.1 as nat == r / 60_000);
    assert(v.2 as nat == r2 / 1000);
    assert(v.3 as nat == m % 1000);
}

/// Normalized fields are recovered from the span they stand for.
pub proof fn lemma_millis_split(v: ReadoutParts)
    requires
        is_normalized(v),
    ensures
        split_millis(millis_of(v)) == v,
{
    let m = millis_of(v);
    let low = v.1 as nat * 60_000 + v.2 as nat * 1000 + v.3 as nat;
    assert(low < 3_600_000);
    assert(m / 3_600_000 == v.0);
    assert(m / 60_000 == v.0 as nat * 60 + v.1 as nat);
    assert(m / 1000 == v.0 as nat * 3600 + v.1 as nat * 60 + v.2 as nat);
    assert(m % 1000 == v.3);
}

impl StopWatchReadout {
    #[verifier::type_invariant]
    spec fn fits(&self) -> bool {
        millis_of(self@) <= u128::MAX
    }

    /// A readout of no time.
    pub fn new() -> (r: Self)
        ensures
            r@ == (0u128, 0u128, 0u128, 0u128),
    {
        StopWatchReadout { hours: 0, minutes: 0, seconds: 0, milliseconds: 0 }
    }

    /// The readout with the given fields, when the span they stand for fits
    /// in a `u128` of milliseconds.
    pub fn from_parts(hours: u128, minutes: u128, seconds: u128, milliseconds: u128) -> (r: Option<
        Self,
    >)
        ensures
            r is Some <==> millis_of((hours, minutes, seconds, milliseconds)) <= u128::MAX,
            r matches Some(x) ==> x@ == (hours, minutes, seconds, milliseconds),
    {
        let h = hours.checked_mul(MILLISECONDS_PER_HOUR);
        let m = minutes.checked_mul(MILLISECONDS_PER_MINUTE);
        let s = seconds.checked_mul(MILLISECONDS_PER_SECOND);
        match (h, m, s) {
            (Some(h), Some(m), Some(s)) => {
                match h.checked_add(m) {
                    Some(hm) => match hm.checked_add(s) {
                        Some(hms) => match hms.checked_add(milliseconds) {
                            Some(_) => Some(
                                StopWatchReadout { hours, minutes, seconds, milliseconds },
                            ),
                            None => None,
                        },
                        None => None,
                    },
                    None => None,
                }
            },
            _ => None,
        }
    }

    /// Whole hours.
    pub fn hours(&self) -> (h: u128)
        ensures
            h == self@.0,
    {
        self.hours
    }

    /// Minutes.
    pub fn minutes(&self) -> (m: u128)
        ensures
            m == self@.1,
    {
        self.minutes
    }

    /// Seconds.
    pub fn seconds(&self) -> (s: u128)
        ensures
            s == self@.2,
    {
        self.seconds
    }

    /// Milliseconds.
    pub fn milliseconds(&self) -> (ms: u128)
        ensures
            ms == self@.3,
    {
        self.milliseconds
    }

    /// The whole span in milliseconds.
    pub fn to_milliseconds(self) -> (m: u128)
        ensures
            m == millis_of(self@),
    {
        proof {
            use_type_invariant(&self);
        }
        self.hours * MILLISECONDS_PER_HOUR + self.minutes * MILLISECONDS_PER_MINUTE + self.seconds
            * MILLISECONDS_PER_SECOND + self.milliseconds
    }

    /// The readout of `duration`, to the whole millisecond.
    pub fn from_duration(duration: Duration) -> (r: StopWatchReadout)
        ensures
            r@ == split_millis(duration_millis(duration) as nat),
    {
        Self::from_millis(duration_as_millis(duration))
    }

    /// The readout of `milliseconds`: whole hours, then the minutes, seconds
    /// and milliseconds that are left.
    pub fn from_millis(milliseconds: u128) -> (r: StopWatchReadout)
        ensures
            r@ == split_millis(milliseconds as nat),
    {
        let mut milliseconds = milliseconds;
        let ghost m0 = milliseconds as nat;
        let hours = milliseconds / MILLISECONDS_PER_HOUR;
        milliseconds %= MILLISECONDS_PER_HOUR;
        let minutes = milliseconds / MILLISECONDS_PER_MINUTE;
        milliseconds %= MILLISECONDS_PER_MINUTE;
        let seconds = milliseconds / MILLISECONDS_PER_SECOND;
        milliseconds %= MILLISECONDS_PER_SECOND;
        proof {
            lemma_split_millis(m0);
            let r = m0 % 3_600_000;
            assert(m0 == 3_600_000 * (m0 / 3_600_000) + r);
            assert(m0 / 60_000 == 60 * (m0 / 3_600_000) + r / 60_000);
            assert(r % 60_000 == m0 % 60_000);
            assert(m0 % 60_000 % 1000 == m0 % 1000);
        }
        StopWatchReadout { hours, minutes, seconds, milliseconds }
    }

    /// The readout as `HHhrs:MMmin:SSsecs`, each field at least two digits.
    pub fn to_display_string(&self) -> (s: String)
        ensures
            s@ == zero_padded(self@.0 as nat, 2) + "hrs:"@ + zero_padded(self@.1 as nat, 2)
                + "min:"@ + zero_padded(self@.2 as nat, 2) + "secs"@,
    {
        let mut s = String::new();
        push_zero_padded(&mut s, self.hours, 2);
        s.append("hrs:");
        push_zero_padded(&mut s, self.minutes, 2);
        s.append("min:");
        push_zero_padded(&mut s, self.seconds, 2);
        s.append("secs");
        s
    }
}

impl core::ops::Add for StopWatchReadout {
    type Output = StopWatchReadout;

    /// The readout of the two spans together.
    fn add(self, rhs: Self) -> (r: Self::Output) {
        let milliseconds = self.to_milliseconds() + rhs.to_milliseconds();
        let r = Self::from_millis(milliseconds);
        proof {
            lemma_readout_view_injective(r, readout_from_parts(split_millis(milliseconds as nat)));
        }
        r
    }
}

impl vstd::std_specs::ops::AddSpecImpl for StopWatchReadout {
    open spec fn obeys_add_spec() -> bool {
        true
    }

    open spec fn add_req(self, rhs: Self) -> bool {
        millis_of(self@) + millis_of(rhs@) <= u128::MAX
    }

    open spec fn add_spec(self, rhs: Self) -> Self {
        readout_from_parts(split_millis(millis_of(self@) + millis_of(rhs@)))
    }
}

impl core::ops::Sub for StopWatchReadout {
    type Output = StopWatchReadout;

    /// The readout of the first span less the second.
    fn sub(self, rhs: Self) -> (r: Self::Output) {
        let milliseconds = self.to_milliseconds() - rhs.to_milliseconds();
        let r = Self::from_millis(milliseconds);
        proof {
            lemma_readout_view_injective(r, readout_from_parts(split_millis(milliseconds as nat)));
        }
        r
    }
}

impl vstd::std_specs::ops::SubSpecImpl for StopWatchReadout {
    open spec fn obeys_sub_spec() -> bool {
        true
    }

    open spec fn sub_req(self, rhs: Self) -> bool {
        millis_of(rhs@) <= millis_of(self@)
    }

    open spec fn sub_spec(self, rhs: Self) -> Self {
        readout_from_parts(split_millis((millis_of(self@) - millis_of(rhs@)) as nat))
    }
}

/// A readout made from a span gives the span back: `from_millis(m)`
/// has `to_milliseconds() == m`, with its fields normalized.
pub proof fn law_from_millis_round_trip(m: u128)
    ensures
        millis_of(split_millis(m as nat)) == m,
        is_normalized(split_millis(m as nat)),
{
    lemma_split_millis(m as nat);
}

/// Adding two readouts adds their spans, and the sum is normalized.
pub proof fn law_add_adds_spans(a: StopWatchReadout, b: StopWatchReadout)
    requires
        a.add_req(b),
    ensures
        millis_of(a.add_spec(b)@) == millis_of(a@) + millis_of(b@),
        is_normalized(a.add_spec(b)@),
{
    lemma_split_millis(millis_of(a@) + millis_of(b@));
}

/// Addition of readouts is commutative.
pub proof fn law_add_commutative(a: StopWatchReadout, b: StopWatchReadout)
    requires
        a.add_req(b),
    ensures
        b.add_req(a),
        a.add_spec(b) == b.add_spec(a),
{
    assert(millis_of(a@) + millis_of(b@) == millis_of(b@) + millis_of(a@));
}

/// Subtracting what was added gives a normalized readout back: `(a + b) - b == a`.
pub proof fn law_add_then_sub(a: StopWatchReadout, b: StopWatchReadout)
    requires
        a.add_req(b),
        is_normalized(a@),
    ensures
        a.add_spec(b).sub_req(b),
        a.add_spec(b).sub_spec(b) == a,
{
    let m = millis_of(a@) + millis_of(b@);
    lemma_split_millis(m);
    lemma_readout_from_parts(split_millis(m));
    assert(millis_of(a.add_spec(b)@) == m);
    let d = (m - millis_of(b@)) as nat;
    assert(d == millis_of(a@));
    lemma_millis_split(a@);
    lemma_readout_from_parts(split_millis(d));
    lemma_readout_view_injective(a.add_spec(b).sub_spec(b), a);
}

} // verus!
